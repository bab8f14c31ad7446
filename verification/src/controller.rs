//! The allocation control plane: monotonically increasing stack identifiers,
//! stack-to-source bindings, and preload replica assignments.
//!
//! The persistence backend is a pluggable transactional key-value store; this
//! module is the store's verified model — the state the seven operations act
//! on atomically, with their user-visible contracts. A serving layer wraps it
//! behind whatever transport it likes.

use vstd::prelude::*;
use vstd::string::StringExecFns;
use crate::errors::{CustomError, ErrorKind};

verus! {

/// The most replicas one `pre_load` call may ask for.
pub const MAX_PRELOAD_REPLICAS: i64 = 5;

/// Lifecycle of one preload assignment; transitions past `Init` are driven
/// by the worker fleet.
#[derive(Debug, Clone, Copy, PartialEq, Eq, Structural)]
pub enum PreLoadState {
    /// Just created; no worker has picked it up.
    Init,
    /// A worker is copying the stack.
    Loading,
    /// The copy is complete.
    Loaded,
    /// Marked for removal.
    Deleting,
}

/// One preload assignment.
#[derive(Debug)]
pub struct PreLoad {
    /// The stack to preload.
    pub stack_id: u64,
    /// Where the assignment stands.
    pub state: PreLoadState,
    /// The worker holding it; empty until one picks it up.
    pub bserver: String,
    /// When the assignment was created, milliseconds since the epoch.
    pub creation_timestamp: i64,
    /// When the copy completed; minimal until then.
    pub loaded_timestamp: i64,
    /// Touched to take a logical lock during reconciliation.
    pub update_timestamp: i64,
}

impl PreLoad {
    /// A fresh assignment in state `Init`.
    pub fn new(stack_id: u64, now_millis: i64) -> (r: Self)
        ensures
            r.stack_id == stack_id,
            r.state is Init,
            r.bserver@ == Seq::<char>::empty(),
            r.creation_timestamp == now_millis,
            r.loaded_timestamp == i64::MIN,
            r.update_timestamp == i64::MIN,
    {
        PreLoad {
            stack_id,
            state: PreLoadState::Init,
            bserver: String::new(),
            creation_timestamp: now_millis,
            loaded_timestamp: i64::MIN,
            update_timestamp: i64::MIN,
        }
    }
}

/// A copy of an assignment.
pub fn clone_preload(p: &PreLoad) -> (r: PreLoad)
    ensures
        r == *p,
{
    PreLoad {
        stack_id: p.stack_id,
        state: p.state,
        bserver: p.bserver.clone(),
        creation_timestamp: p.creation_timestamp,
        loaded_timestamp: p.loaded_timestamp,
        update_timestamp: p.update_timestamp,
    }
}

/// The locations bound to one stack.
#[derive(Debug)]
pub struct StackSource {
    /// The stack.
    pub stack_id: u64,
    /// Where its files can be fetched from; no duplicates.
    pub locations: Vec<String>,
}

/// Whether an assignment counts against the replica target of `stack_id`:
/// it belongs to the stack and is not being deleted.
pub open spec fn spec_is_active(e: PreLoad, stack_id: u64) -> bool {
    e.stack_id == stack_id && !(e.state is Deleting)
}

/// The active assignments of a stack, in store order.
pub open spec fn spec_active(ps: Seq<PreLoad>, stack_id: u64) -> Seq<PreLoad>
    decreases ps.len(),
{
    if ps.len() == 0 {
        Seq::empty()
    } else {
        spec_active(ps.drop_last(), stack_id) + (if spec_is_active(ps.last(), stack_id) {
            seq![ps.last()]
        } else {
            Seq::empty()
        })
    }
}

/// The assignments that a reconciliation of `stack_id` never touches: other
/// stacks' entries, and this stack's entries already marked `Deleting`.
pub open spec fn spec_passive(ps: Seq<PreLoad>, stack_id: u64) -> Seq<PreLoad>
    decreases ps.len(),
{
    if ps.len() == 0 {
        Seq::empty()
    } else {
        spec_passive(ps.drop_last(), stack_id) + (if !spec_is_active(ps.last(), stack_id) {
            seq![ps.last()]
        } else {
            Seq::empty()
        })
    }
}

/// All assignments of a stack, whatever their state, in store order.
pub open spec fn spec_located(ps: Seq<PreLoad>, stack_id: u64) -> Seq<PreLoad>
    decreases ps.len(),
{
    if ps.len() == 0 {
        Seq::empty()
    } else {
        spec_located(ps.drop_last(), stack_id) + (if ps.last().stack_id == stack_id {
            seq![ps.last()]
        } else {
            Seq::empty()
        })
    }
}

/// The replica target a request clamps to: between 0 and
/// MAX_PRELOAD_REPLICAS.
pub open spec fn spec_clamped(replicas: int) -> int {
    if replicas > MAX_PRELOAD_REPLICAS as int {
        MAX_PRELOAD_REPLICAS as int
    } else if replicas < 0 {
        0
    } else {
        replicas
    }
}

/// Whether a location (by its characters) stands in a location list.
pub open spec fn spec_has_loc(locs: Seq<String>, l: Seq<char>) -> bool {
    exists|i: int| 0 <= i < locs.len() && locs[i]@ == l
}

/// The set-union a registration performs: locations of `add` are appended in
/// order, each only where no location with the same characters stands yet.
pub open spec fn spec_union_locs(base: Seq<String>, add: Seq<String>) -> Seq<String>
    decreases add.len(),
{
    if add.len() == 0 {
        base
    } else {
        let prev = spec_union_locs(base, add.drop_last());
        if spec_has_loc(prev, add.last()@) {
            prev
        } else {
            prev.push(add.last())
        }
    }
}

/// The removal a deregistration performs: locations of `base` are kept in
/// order, each only where no location of `rm` has the same characters.
pub open spec fn spec_remove_locs(base: Seq<String>, rm: Seq<String>) -> Seq<String>
    decreases base.len(),
{
    if base.len() == 0 {
        Seq::empty()
    } else {
        spec_remove_locs(base.drop_last(), rm) + (if spec_has_loc(rm, base.last()@) {
            Seq::empty()
        } else {
            seq![base.last()]
        })
    }
}

/// No two locations of the list share their characters.
pub open spec fn spec_locs_nodup(locs: Seq<String>) -> bool {
    forall|i: int, j: int| 0 <= i < j < locs.len() ==> locs[i]@ != locs[j]@
}

/// What the union gives: membership is the disjunction, freedom from
/// duplicates is preserved, and a union that adds nothing new is the base
/// itself — so registering the same locations twice is idempotent.
pub proof fn lemma_union_locs_props(base: Seq<String>, add: Seq<String>)
    ensures
        forall|l: Seq<char>|
            #[trigger] spec_has_loc(spec_union_locs(base, add), l) <==> (spec_has_loc(base, l)
                || spec_has_loc(add, l)),
        spec_locs_nodup(base) ==> spec_locs_nodup(spec_union_locs(base, add)),
        (forall|k: int| 0 <= k < add.len() ==> spec_has_loc(base, #[trigger] add[k]@))
            ==> spec_union_locs(base, add) == base,
    decreases add.len(),
{
    if add.len() == 0 {
    } else {
        lemma_union_locs_props(base, add.drop_last());
        let prev = spec_union_locs(base, add.drop_last());
        let u = spec_union_locs(base, add);
        assert forall|l: Seq<char>| #[trigger] spec_has_loc(u, l) <==> (spec_has_loc(base, l)
            || spec_has_loc(add, l)) by {
            if spec_has_loc(u, l) {
                let w = choose|w: int| 0 <= w < u.len() && u[w]@ == l;
                if w < prev.len() {
                    assert(spec_has_loc(prev, l)) by {
                        assert(prev[w]@ == l);
                    }
                } else {
                    assert(u[w]@ == add.last()@);
                    assert(spec_has_loc(add, l)) by {
                        assert(add[add.len() - 1]@ == l);
                    }
                }
            }
            if spec_has_loc(prev, l) {
                let w = choose|w: int| 0 <= w < prev.len() && prev[w]@ == l;
                assert(spec_has_loc(u, l)) by {
                    assert(u[w]@ == l);
                }
            }
            if spec_has_loc(add, l) {
                let w = choose|w: int| 0 <= w < add.len() && add[w]@ == l;
                if w < add.len() - 1 {
                    assert(spec_has_loc(add.drop_last(), l)) by {
                        assert(add.drop_last()[w]@ == l);
                    }
                } else {
                    if spec_has_loc(prev, add.last()@) {
                        assert(spec_has_loc(u, l));
                    } else {
                        assert(spec_has_loc(u, l)) by {
                            assert(u[u.len() - 1]@ == l);
                        }
                    }
                }
            }
        }
        if spec_locs_nodup(base) {
            assert(spec_locs_nodup(u)) by {
                if !spec_has_loc(prev, add.last()@) {
                    assert forall|i: int, j: int| 0 <= i < j < u.len() implies u[i]@ != u[j]@ by {
                        if j < prev.len() {
                            assert(prev[i]@ != prev[j]@);
                        } else {
                            assert(u[j]@ == add.last()@);
                            if u[i]@ == u[j]@ {
                                assert(spec_has_loc(prev, add.last()@)) by {
                                    assert(prev[i]@ == add.last()@);
                                }
                            }
                        }
                    }
                }
            }
        }
        if forall|k: int| 0 <= k < add.len() ==> spec_has_loc(base, #[trigger] add[k]@) {
            assert(forall|k: int|
                0 <= k < add.drop_last().len() ==> spec_has_loc(
                    base,
                    #[trigger] add.drop_last()[k]@,
                ));
            assert(prev == base);
            assert(spec_has_loc(base, add.last()@)) by {
                assert(spec_has_loc(base, add[add.len() - 1]@));
            }
        }
    }
}

/// What the removal gives: membership is the conjunction with absence from
/// the removed set, and freedom from duplicates is preserved.
pub proof fn lemma_remove_locs_props(base: Seq<String>, rm: Seq<String>)
    ensures
        forall|l: Seq<char>|
            #[trigger] spec_has_loc(spec_remove_locs(base, rm), l) <==> (spec_has_loc(base, l)
                && !spec_has_loc(rm, l)),
        spec_locs_nodup(base) ==> spec_locs_nodup(spec_remove_locs(base, rm)),
    decreases base.len(),
{
    if base.len() == 0 {
    } else {
        lemma_remove_locs_props(base.drop_last(), rm);
        let prev = spec_remove_locs(base.drop_last(), rm);
        let u = spec_remove_locs(base, rm);
        assert forall|l: Seq<char>| #[trigger] spec_has_loc(u, l) <==> (spec_has_loc(base, l)
            && !spec_has_loc(rm, l)) by {
            if spec_has_loc(u, l) {
                let w = choose|w: int| 0 <= w < u.len() && u[w]@ == l;
                if w < prev.len() {
                    assert(spec_has_loc(prev, l)) by {
                        assert(prev[w]@ == l);
                    }
                    let x = choose|x: int|
                        0 <= x < base.drop_last().len() && base.drop_last()[x]@ == l;
                    assert(spec_has_loc(base, l)) by {
                        assert(base[x]@ == l);
                    }
                } else {
                    assert(u[w]@ == base.last()@);
                    assert(spec_has_loc(base, l)) by {
                        assert(base[base.len() - 1]@ == l);
                    }
                }
            }
            if spec_has_loc(base, l) && !spec_has_loc(rm, l) {
                let w = choose|w: int| 0 <= w < base.len() && base[w]@ == l;
                if w < base.len() - 1 {
                    assert(spec_has_loc(base.drop_last(), l)) by {
                        assert(base.drop_last()[w]@ == l);
                    }
                    assert(spec_has_loc(prev, l));
                    let x = choose|x: int| 0 <= x < prev.len() && prev[x]@ == l;
                    assert(spec_has_loc(u, l)) by {
                        assert(u[x]@ == l);
                    }
                } else {
                    assert(base.last()@ == l);
                    assert(spec_has_loc(u, l)) by {
                        assert(u[u.len() - 1]@ == l);
                    }
                }
            }
        }
        if spec_locs_nodup(base) {
            assert(spec_locs_nodup(base.drop_last())) by {
                assert(forall|i: int, j: int|
                    0 <= i < j < base.drop_last().len() ==> base.drop_last()[i]@ != base.drop_last()[j]@);
            }
            if !spec_has_loc(rm, base.last()@) {
                assert forall|i: int, j: int| 0 <= i < j < u.len() implies u[i]@ != u[j]@ by {
                    if j < prev.len() {
                        assert(prev[i]@ != prev[j]@);
                    } else {
                        assert(u[j]@ == base.last()@);
                        if u[i]@ == u[j]@ {
                            assert(spec_has_loc(prev, base.last()@)) by {
                                assert(prev[i]@ == base.last()@);
                            }
                            let x = choose|x: int|
                                0 <= x < base.drop_last().len() && base.drop_last()[x]@
                                    == base.last()@;
                            assert(base[x]@ == base[base.len() - 1]@);
                        }
                    }
                }
            }
        }
    }
}

/// The allocation service state: the identifier counter, the stack-to-source
/// bindings, and the preload assignments.
pub struct AllocationState {
    /// The next identifier `next_stack_id` will hand out.
    pub next_stack_id: u64,
    /// The *stacks* collection.
    pub stacks: Vec<StackSource>,
    /// The *preloads* collection.
    pub preloads: Vec<PreLoad>,
}

/// What a successful `next_stack_id` call does: it returns the pre-increment
/// counter and advances it by one, touching nothing else.
pub open spec fn spec_next_id_ok(pre: AllocationState, post: AllocationState, r: u64) -> bool {
    &&& r == pre.next_stack_id
    &&& post.next_stack_id == pre.next_stack_id + 1
    &&& post.stacks == pre.stacks
    &&& post.preloads == pre.preloads
}

impl AllocationState {
    /// A fresh store whose counter starts at `first_stack_id`.
    pub fn new(first_stack_id: u64) -> (r: Self)
        ensures
            r.next_stack_id == first_stack_id,
            r.stacks@.len() == 0,
            r.preloads@.len() == 0,
    {
        AllocationState { next_stack_id: first_stack_id, stacks: Vec::new(), preloads: Vec::new() }
    }

    /// Hand out the next stack identifier: the pre-increment counter value.
    /// Refuses only when the counter is exhausted.
    pub fn next_stack_id(&mut self) -> (r: Result<u64, ErrorKind>)
        ensures
            match r {
                Ok(v) => spec_next_id_ok(*old(self), *final(self), v),
                Err(e) => *final(self) == *old(self) && e is ControllerError && old(
                    self,
                ).next_stack_id == u64::MAX,
            },
            old(self).next_stack_id < u64::MAX ==> r is Ok,
    {
        if self.next_stack_id == u64::MAX {
            return Err(ErrorKind::ControllerError(CustomError::new(String::from_str(
                "stack identifiers are exhausted",
            ))));
        }
        let v = self.next_stack_id;
        self.next_stack_id = self.next_stack_id + 1;
        Ok(v)
    }

    /// Upsert a *stacks* document and union the locations into it,
    /// deduplicated.
    #[verifier::loop_isolation(false)]
    pub fn register_stack_source(&mut self, stack_id: u64, locations: Vec<String>)
        ensures
            final(self).next_stack_id == old(self).next_stack_id,
            final(self).preloads == old(self).preloads,
            match spec_doc_index(old(self).stacks@, stack_id) {
                Some(i) => {
                    &&& final(self).stacks@.len() == old(self).stacks@.len()
                    &&& forall|j: int|
                        0 <= j < old(self).stacks@.len() && j != i ==> final(self).stacks@[j]
                            == old(self).stacks@[j]
                    &&& final(self).stacks@[i].stack_id == stack_id
                    &&& final(self).stacks@[i].locations@ == spec_union_locs(
                        old(self).stacks@[i].locations@,
                        locations@,
                    )
                    &&& forall|l: Seq<char>|
                        #[trigger] spec_has_loc(final(self).stacks@[i].locations@, l) <==> (
                        spec_has_loc(old(self).stacks@[i].locations@, l) || spec_has_loc(
                            locations@,
                            l,
                        ))
                },
                None => {
                    &&& final(self).stacks@.len() == old(self).stacks@.len() + 1
                    &&& forall|j: int|
                        0 <= j < old(self).stacks@.len() ==> final(self).stacks@[j] == old(
                            self,
                        ).stacks@[j]
                    &&& final(self).stacks@.last().stack_id == stack_id
                    &&& final(self).stacks@.last().locations@ == spec_union_locs(
                        Seq::empty(),
                        locations@,
                    )
                    &&& forall|l: Seq<char>|
                        #[trigger] spec_has_loc(final(self).stacks@.last().locations@, l)
                            <==> spec_has_loc(locations@, l)
                },
            },
    {
        proof {
            lemma_doc_index(old(self).stacks@, stack_id);
        }
        let mut di: usize = 0;
        let mut found: bool = false;
        while di < self.stacks.len() && !found
            invariant
                0 <= di <= self.stacks@.len(),
                found ==> di < self.stacks@.len() && self.stacks@[di as int].stack_id == stack_id,
                forall|j: int| 0 <= j < di ==> self.stacks@[j].stack_id != stack_id,
                *self == *old(self),
            decreases self.stacks@.len() - di, (if found { 0int } else { 1int }),
        {
            if self.stacks[di].stack_id == stack_id {
                found = true;
            } else {
                di = di + 1;
            }
        }
        proof {
            if found {
                assert(spec_doc_index(old(self).stacks@, stack_id) == Some(di as int)) by {
                    lemma_doc_index_exact(old(self).stacks@, stack_id, di as int);
                }
            } else {
                assert(spec_doc_index(old(self).stacks@, stack_id) is None) by {
                    if spec_doc_index(old(self).stacks@, stack_id) is Some {
                        let w = spec_doc_index(old(self).stacks@, stack_id).unwrap();
                        assert(old(self).stacks@[w].stack_id == stack_id);
                    }
                }
            }
        }
        if !found {
            let empty: Vec<String> = Vec::new();
            self.stacks.push(StackSource { stack_id, locations: empty });
        }
        let di = if found {
            di
        } else {
            self.stacks.len() - 1
        };
        let ghost base = self.stacks@[di as int].locations@;
        let ghost docs0 = self.stacks@;
        let mut k: usize = 0;
        while k < locations.len()
            invariant
                0 <= k <= locations@.len(),
                di < self.stacks@.len(),
                self.next_stack_id == old(self).next_stack_id,
                self.preloads == old(self).preloads,
                self.stacks@.len() == docs0.len(),
                forall|j: int|
                    0 <= j < self.stacks@.len() && j != di ==> self.stacks@[j] == docs0[j],
                self.stacks@[di as int].stack_id == stack_id,
                self.stacks@[di as int].locations@ == spec_union_locs(
                    base,
                    locations@.take(k as int),
                ),
                forall|l: Seq<char>|
                    #[trigger] spec_has_loc(self.stacks@[di as int].locations@, l) <==> (
                    spec_has_loc(base, l) || spec_has_loc(locations@.take(k as int), l)),
            decreases locations@.len() - k,
        {
            let ghost prev = self.stacks@[di as int].locations@;
            let mut present: bool = false;
            let mut m: usize = 0;
            let doc_len = self.stacks[di].locations.len();
            while m < doc_len && !present
                invariant
                    0 <= m <= self.stacks@[di as int].locations@.len(),
                    doc_len == self.stacks@[di as int].locations@.len(),
                    k < locations@.len(),
                    di < self.stacks@.len(),
                    present ==> spec_has_loc(
                        self.stacks@[di as int].locations@,
                        locations@[k as int]@,
                    ),
                    !present ==> forall|j: int|
                        0 <= j < m ==> self.stacks@[di as int].locations@[j]@ != locations@[
                            k as int
                        ]@,
                    self.stacks@[di as int].locations@ == prev,
                decreases doc_len - m, (if present { 0int } else { 1int }),
            {
                if self.stacks[di].locations[m] == locations[k] {
                    proof {
                        assert(spec_has_loc(prev, locations@[k as int]@)) by {
                            assert(prev[m as int]@ == locations@[k as int]@);
                        }
                    }
                    present = true;
                } else {
                    m = m + 1;
                }
            }
            if !present {
                let loc = locations[k].clone();
                let doc = &mut self.stacks[di];
                doc.locations.push(loc);
            }
            k = k + 1;
            proof {
                let tk0 = locations@.take(k as int);
                assert(tk0.drop_last() =~= locations@.take(k as int - 1));
                assert(tk0.last() == locations@[k as int - 1]);
                assert(present <==> spec_has_loc(prev, locations@[k as int - 1]@)) by {
                    if !present && spec_has_loc(prev, locations@[k as int - 1]@) {
                        let w = choose|w: int| 0 <= w < prev.len() && prev[w]@ == locations@[
                            k as int - 1
                        ]@;
                    }
                }
                assert(self.stacks@[di as int].locations@ == spec_union_locs(base, tk0));
                assert forall|l: Seq<char>|
                    #[trigger] spec_has_loc(self.stacks@[di as int].locations@, l) <==> (
                spec_has_loc(base, l) || spec_has_loc(
                    locations@.take(k as int),
                    l,
                )) by {
                    let cur = self.stacks@[di as int].locations@;
                    let tk = locations@.take(k as int);
                    assert(tk.drop_last() =~= locations@.take(k as int - 1));
                    assert(tk.last() == locations@[k as int - 1]);
                    if spec_has_loc(cur, l) {
                        let w = choose|w: int| 0 <= w < cur.len() && cur[w]@ == l;
                        if w < prev.len() {
                            assert(spec_has_loc(prev, l)) by {
                                assert(prev[w]@ == l);
                            }
                        } else {
                            assert(cur[w]@ == locations@[k as int - 1]@);
                            assert(spec_has_loc(tk, l)) by {
                                assert(tk[k as int - 1]@ == l);
                            }
                        }
                    }
                    if spec_has_loc(prev, l) {
                        let w = choose|w: int| 0 <= w < prev.len() && prev[w]@ == l;
                        assert(spec_has_loc(cur, l)) by {
                            assert(cur[w]@ == l);
                        }
                    }
                    if spec_has_loc(tk, l) {
                        let w = choose|w: int| 0 <= w < tk.len() && tk[w]@ == l;
                        if w < k as int - 1 {
                            assert(spec_has_loc(locations@.take(k as int - 1), l)) by {
                                assert(locations@.take(k as int - 1)[w]@ == l);
                            }
                        } else {
                            if present {
                                assert(spec_has_loc(prev, locations@[k as int - 1]@));
                                assert(spec_has_loc(cur, l));
                            } else {
                                assert(cur[cur.len() - 1]@ == l);
                                assert(spec_has_loc(cur, l));
                            }
                        }
                    }
                }
            }
        }
        proof {
            assert(locations@.take(locations@.len() as int) =~= locations@);
            assert(self.stacks@[di as int].locations@ == spec_union_locs(base, locations@));
            let di_g = di as int;
            if found {
                assert(spec_doc_index(old(self).stacks@, stack_id) == Some(di_g));
                assert(self.stacks@.len() == old(self).stacks@.len());
                assert(forall|j: int|
                    0 <= j < old(self).stacks@.len() && j != di_g ==> self.stacks@[j] == old(
                        self,
                    ).stacks@[j]);
                assert(self.stacks@[di_g].stack_id == stack_id);
            } else {
                assert(spec_doc_index(old(self).stacks@, stack_id) is None);
                assert(di_g == old(self).stacks@.len());
                assert(self.stacks@.len() == old(self).stacks@.len() + 1);
                assert forall|j: int|
                    0 <= j < old(self).stacks@.len() implies self.stacks@[j] == old(
                    self,
                ).stacks@[j] by {
                    assert(self.stacks@[j] == docs0[j]);
                    assert(docs0[j] == old(self).stacks@[j]);
                }
                assert(self.stacks@.last() == self.stacks@[di_g]);
                assert(base =~= Seq::<String>::empty());
                assert(forall|l: Seq<char>| !spec_has_loc(base, l));
            }
        }
    }

    /// Remove any of the given locations from a stack's document. Where no
    /// document exists, nothing changes.
    #[verifier::loop_isolation(false)]
    pub fn de_register_stack_source(&mut self, stack_id: u64, locations: Vec<String>)
        ensures
            final(self).next_stack_id == old(self).next_stack_id,
            final(self).preloads == old(self).preloads,
            match spec_doc_index(old(self).stacks@, stack_id) {
                Some(i) => {
                    &&& final(self).stacks@.len() == old(self).stacks@.len()
                    &&& forall|j: int|
                        0 <= j < old(self).stacks@.len() && j != i ==> final(self).stacks@[j]
                            == old(self).stacks@[j]
                    &&& final(self).stacks@[i].stack_id == stack_id
                    &&& final(self).stacks@[i].locations@ == spec_remove_locs(
                        old(self).stacks@[i].locations@,
                        locations@,
                    )
                    &&& forall|l: Seq<char>|
                        #[trigger] spec_has_loc(final(self).stacks@[i].locations@, l) <==> (
                        spec_has_loc(old(self).stacks@[i].locations@, l) && !spec_has_loc(
                            locations@,
                            l,
                        ))
                },
                None => *final(self) == *old(self),
            },
    {
        proof {
            lemma_doc_index(old(self).stacks@, stack_id);
        }
        let mut di: usize = 0;
        let mut found: bool = false;
        while di < self.stacks.len() && !found
            invariant
                0 <= di <= self.stacks@.len(),
                found ==> di < self.stacks@.len() && self.stacks@[di as int].stack_id == stack_id,
                forall|j: int| 0 <= j < di ==> self.stacks@[j].stack_id != stack_id,
                *self == *old(self),
            decreases self.stacks@.len() - di, (if found { 0int } else { 1int }),
        {
            if self.stacks[di].stack_id == stack_id {
                found = true;
            } else {
                di = di + 1;
            }
        }
        if !found {
            proof {
                if spec_doc_index(old(self).stacks@, stack_id) is Some {
                    let w = spec_doc_index(old(self).stacks@, stack_id).unwrap();
                    assert(old(self).stacks@[w].stack_id == stack_id);
                }
            }
            return;
        }
        proof {
            lemma_doc_index_exact(old(self).stacks@, stack_id, di as int);
        }
        let ghost base = self.stacks@[di as int].locations@;
        let mut kept: Vec<String> = Vec::new();
        let doc_len = self.stacks[di].locations.len();
        let mut m: usize = 0;
        while m < doc_len
            invariant
                0 <= m <= base.len(),
                doc_len == base.len(),
                di < self.stacks@.len(),
                self.stacks@[di as int].locations@ == base,
                *self == *old(self),
                kept@ == spec_remove_locs(base.take(m as int), locations@),
                forall|l: Seq<char>|
                    #[trigger] spec_has_loc(kept@, l) <==> (spec_has_loc(base.take(m as int), l)
                        && !spec_has_loc(locations@, l)),
            decreases doc_len - m,
        {
            let ghost kept0 = kept@;
            let mut present: bool = false;
            let mut w: usize = 0;
            while w < locations.len() && !present
                invariant
                    0 <= w <= locations@.len(),
                    m < base.len(),
                    di < self.stacks@.len(),
                    self.stacks@[di as int].locations@ == base,
                    present ==> spec_has_loc(locations@, base[m as int]@),
                    !present ==> forall|j: int|
                        0 <= j < w ==> locations@[j]@ != base[m as int]@,
                    *self == *old(self),
                    kept@ == kept0,
                decreases locations@.len() - w, (if present { 0int } else { 1int }),
            {
                if locations[w] == self.stacks[di].locations[m] {
                    proof {
                        assert(spec_has_loc(locations@, base[m as int]@)) by {
                            assert(locations@[w as int]@ == base[m as int]@);
                        }
                    }
                    present = true;
                } else {
                    w = w + 1;
                }
            }
            if !present {
                kept.push(self.stacks[di].locations[m].clone());
            }
            m = m + 1;
            proof {
                let tk0 = base.take(m as int);
                assert(tk0.drop_last() =~= base.take(m as int - 1));
                assert(tk0.last() == base[m as int - 1]);
                assert(present <==> spec_has_loc(locations@, base[m as int - 1]@)) by {
                    if !present && spec_has_loc(locations@, base[m as int - 1]@) {
                        let w = choose|w: int|
                            0 <= w < locations@.len() && locations@[w]@ == base[m as int - 1]@;
                    }
                }
                assert(kept@ == spec_remove_locs(tk0, locations@)) by {
                    if present {
                        assert(kept@ =~= spec_remove_locs(base.take(m as int - 1), locations@)
                            + Seq::<String>::empty());
                    } else {
                        assert(kept@ =~= spec_remove_locs(base.take(m as int - 1), locations@)
                            + seq![base[m as int - 1]]);
                    }
                }
                assert forall|l: Seq<char>|
                    #[trigger] spec_has_loc(kept@, l) <==> (spec_has_loc(base.take(m as int), l)
                        && !spec_has_loc(locations@, l)) by {
                    let tk = base.take(m as int);
                    assert(tk.drop_last() =~= base.take(m as int - 1));
                    assert(tk.last() == base[m as int - 1]);
                    if spec_has_loc(kept@, l) {
                        let x = choose|x: int| 0 <= x < kept@.len() && kept@[x]@ == l;
                        if x < kept0.len() {
                            assert(spec_has_loc(kept0, l)) by {
                                assert(kept0[x]@ == l);
                            }
                        } else {
                            assert(kept@[x]@ == base[m as int - 1]@);
                            assert(spec_has_loc(tk, l)) by {
                                assert(tk[m as int - 1]@ == l);
                            }
                        }
                    }
                    if spec_has_loc(tk, l) && !spec_has_loc(locations@, l) {
                        let x = choose|x: int| 0 <= x < tk.len() && tk[x]@ == l;
                        if x < m as int - 1 {
                            assert(spec_has_loc(base.take(m as int - 1), l)) by {
                                assert(base.take(m as int - 1)[x]@ == l);
                            }
                            assert(spec_has_loc(kept0, l));
                            let y = choose|y: int| 0 <= y < kept0.len() && kept0[y]@ == l;
                            assert(spec_has_loc(kept@, l)) by {
                                assert(kept@[y]@ == l);
                            }
                        } else {
                            assert(base[m as int - 1]@ == l);
                            assert(!present);
                            assert(spec_has_loc(kept@, l)) by {
                                assert(kept@[kept@.len() - 1]@ == l);
                            }
                        }
                    }
                }
            }
        }
        proof {
            assert(base.take(base.len() as int) =~= base);
        }
        let doc = &mut self.stacks[di];
        doc.locations = kept;
    }

    /// The locations bound to a stack; refused where no document exists.
    #[verifier::loop_isolation(false)]
    pub fn query_registered_source(&self, stack_id: u64) -> (r: Result<Vec<String>, ErrorKind>)
        ensures
            match r {
                Ok(v) => spec_doc_index(self.stacks@, stack_id) matches Some(i) && v@
                    == self.stacks@[i].locations@,
                Err(e) => spec_doc_index(self.stacks@, stack_id) is None && e is ControllerError,
            },
    {
        proof {
            lemma_doc_index(self.stacks@, stack_id);
        }
        let mut di: usize = 0;
        let mut found: bool = false;
        while di < self.stacks.len() && !found
            invariant
                0 <= di <= self.stacks@.len(),
                found ==> di < self.stacks@.len() && self.stacks@[di as int].stack_id == stack_id,
                forall|j: int| 0 <= j < di ==> self.stacks@[j].stack_id != stack_id,
            decreases self.stacks@.len() - di, (if found { 0int } else { 1int }),
        {
            if self.stacks[di].stack_id == stack_id {
                found = true;
            } else {
                di = di + 1;
            }
        }
        if !found {
            proof {
                if spec_doc_index(self.stacks@, stack_id) is Some {
                    let w = spec_doc_index(self.stacks@, stack_id).unwrap();
                    assert(self.stacks@[w].stack_id == stack_id);
                }
            }
            return Err(ErrorKind::ControllerError(CustomError::new(String::from_str(
                "no source is registered for the stack",
            ))));
        }
        proof {
            lemma_doc_index_exact(self.stacks@, stack_id, di as int);
        }
        let mut out: Vec<String> = Vec::new();
        let doc_len = self.stacks[di].locations.len();
        let mut m: usize = 0;
        while m < doc_len
            invariant
                0 <= m <= doc_len,
                di < self.stacks@.len(),
                doc_len == self.stacks@[di as int].locations@.len(),
                out@ =~= self.stacks@[di as int].locations@.take(m as int),
            decreases doc_len - m,
        {
            out.push(self.stacks[di].locations[m].clone());
            m = m + 1;
        }
        proof {
            assert(self.stacks@[di as int].locations@.take(doc_len as int)
                =~= self.stacks@[di as int].locations@);
        }
        Ok(out)
    }

    /// All assignments of a stack, whatever their state.
    #[verifier::loop_isolation(false)]
    pub fn locate_stack(&self, stack_id: u64) -> (r: Vec<PreLoad>)
        ensures
            r@ == spec_located(self.preloads@, stack_id),
    {
        let mut out: Vec<PreLoad> = Vec::new();
        let mut i: usize = 0;
        while i < self.preloads.len()
            invariant
                0 <= i <= self.preloads@.len(),
                out@ == spec_located(self.preloads@.take(i as int), stack_id),
            decreases self.preloads@.len() - i,
        {
            if self.preloads[i].stack_id == stack_id {
                out.push(clone_preload(&self.preloads[i]));
            }
            i = i + 1;
            proof {
                assert(self.preloads@.take(i as int).drop_last() =~= self.preloads@.take(
                    i as int - 1,
                ));
                assert(self.preloads@.take(i as int).last() == self.preloads@[i as int - 1]);
            }
        }
        proof {
            assert(self.preloads@.take(self.preloads@.len() as int) =~= self.preloads@);
        }
        out
    }

    /// Mark every assignment of a stack `Deleting`.
    #[verifier::loop_isolation(false)]
    pub fn un_pre_load(&mut self, stack_id: u64)
        ensures
            final(self).next_stack_id == old(self).next_stack_id,
            final(self).stacks == old(self).stacks,
            final(self).preloads@.len() == old(self).preloads@.len(),
            forall|i: int|
                0 <= i < old(self).preloads@.len() ==> {
                    let was = old(self).preloads@[i];
                    let now = #[trigger] final(self).preloads@[i];
                    if was.stack_id == stack_id {
                        now == (PreLoad { state: PreLoadState::Deleting, ..was })
                    } else {
                        now == was
                    }
                },
            spec_active(final(self).preloads@, stack_id).len() == 0,
    {
        let n = self.preloads.len();
        let mut i: usize = 0;
        while i < n
            invariant
                0 <= i <= n,
                n == self.preloads@.len(),
                self.preloads@.len() == old(self).preloads@.len(),
                self.next_stack_id == old(self).next_stack_id,
                self.stacks == old(self).stacks,
                forall|j: int|
                    0 <= j < i ==> {
                        let was = old(self).preloads@[j];
                        let now = #[trigger] self.preloads@[j];
                        if was.stack_id == stack_id {
                            now == (PreLoad { state: PreLoadState::Deleting, ..was })
                        } else {
                            now == was
                        }
                    },
                forall|j: int| i <= j < n ==> self.preloads@[j] == old(self).preloads@[j],
            decreases n - i,
        {
            if self.preloads[i].stack_id == stack_id {
                let mut e = clone_preload(&self.preloads[i]);
                e.state = PreLoadState::Deleting;
                self.preloads.set(i, e);
            }
            i = i + 1;
        }
        proof {
            lemma_active_none(self.preloads@, stack_id);
        }
    }

    /// Adjust the preload assignments of a stack to exactly
    /// `min(replicas, MAX_PRELOAD_REPLICAS)` active entries (never below
    /// zero): keep-and-touch or shrink from the front, grow with fresh `Init`
    /// entries, and return the active set.
    #[verifier::loop_isolation(false)]
    #[verifier::rlimit(100)]
    pub fn pre_load(&mut self, stack_id: u64, replicas: i64, now_millis: i64) -> (r: Vec<PreLoad>)
        ensures
            final(self).next_stack_id == old(self).next_stack_id,
            final(self).stacks == old(self).stacks,
            spec_passive(final(self).preloads@, stack_id) == spec_passive(
                old(self).preloads@,
                stack_id,
            ),
            spec_active(final(self).preloads@, stack_id).len() == spec_clamped(replicas as int),
            r@ == spec_active(final(self).preloads@, stack_id),
            spec_active(old(self).preloads@, stack_id).len() == spec_clamped(replicas as int)
                ==> *final(self) == *old(self),
            ({
                // Shrinking drops active entries from the front; the kept
                // ones are the old tail, lock-touched whenever the call
                // reconciled a nonempty set; grown entries are fresh `Init`
                // assignments.
                let oldact = spec_active(old(self).preloads@, stack_id);
                let newact = spec_active(final(self).preloads@, stack_id);
                let tgt = spec_clamped(replicas as int);
                let kept = if oldact.len() >= tgt {
                    tgt
                } else {
                    oldact.len() as int
                };
                let dropped = oldact.len() - kept;
                let touch = oldact.len() != tgt && oldact.len() > 0;
                &&& (forall|q: int|
                    0 <= q < kept ==> #[trigger] newact[q] == spec_touched(
                        oldact[dropped + q],
                        touch,
                        now_millis,
                    ))
                &&& (forall|q: int|
                    kept <= q < newact.len() ==> spec_fresh_init(
                        #[trigger] newact[q],
                        stack_id,
                        now_millis,
                    ))
            }),
    {
        let target: usize = if replicas > MAX_PRELOAD_REPLICAS {
            MAX_PRELOAD_REPLICAS as usize
        } else if replicas < 0 {
            0
        } else {
            replicas as usize
        };

        // Count the active assignments.
        let mut current: usize = 0;
        let mut i: usize = 0;
        let n = self.preloads.len();
        while i < n
            invariant
                0 <= i <= n,
                n == self.preloads@.len(),
                current == spec_active(self.preloads@.take(i as int), stack_id).len(),
                current <= i,
                *self == *old(self),
            decreases n - i,
        {
            if self.preloads[i].stack_id == stack_id && !matches!(
                self.preloads[i].state,
                PreLoadState::Deleting,
            ) {
                current = current + 1;
            }
            i = i + 1;
            proof {
                assert(self.preloads@.take(i as int).drop_last() =~= self.preloads@.take(
                    i as int - 1,
                ));
                assert(self.preloads@.take(i as int).last() == self.preloads@[i as int - 1]);
            }
        }
        proof {
            assert(self.preloads@.take(n as int) =~= self.preloads@);
        }

        if current == target {
            // Nothing to reconcile; the transaction aborts untouched.
            proof {
                let oldact = spec_active(self.preloads@, stack_id);
                assert(oldact.len() == current);
                assert(spec_clamped(replicas as int) == target as int);
            }
            return self.locate_active(stack_id);
        }

        // Rebuild the collection: drop the first `current - target` active
        // entries where shrinking, touch the kept ones, keep everything
        // passive, and append fresh entries where growing.
        let to_drop: usize = if current > target {
            current - target
        } else {
            0
        };
        let touch: bool = current > 0;
        let ghost oldact = spec_active(self.preloads@, stack_id);
        let ghost kept_g: int = if oldact.len() >= target {
            target as int
        } else {
            oldact.len() as int
        };
        let ghost dropped_g: int = oldact.len() - kept_g;
        proof {
            assert(oldact.len() == current);
            assert(spec_clamped(replicas as int) == target as int);
            assert(dropped_g == to_drop as int);
        }
        let mut rebuilt: Vec<PreLoad> = Vec::new();
        let mut dropped: usize = 0;
        let mut j: usize = 0;
        while j < n
            invariant
                0 <= j <= n,
                n == self.preloads@.len(),
                *self == *old(self),
                dropped <= to_drop,
                dropped <= spec_active(self.preloads@.take(j as int), stack_id).len(),
                spec_passive(rebuilt@, stack_id) == spec_passive(
                    self.preloads@.take(j as int),
                    stack_id,
                ),
                spec_active(rebuilt@, stack_id) == spec_touch(
                    spec_active(self.preloads@.take(j as int), stack_id).skip(dropped as int),
                    touch,
                    now_millis,
                ),
                dropped == if spec_active(self.preloads@.take(j as int), stack_id).len()
                    >= to_drop {
                    to_drop as int
                } else {
                    spec_active(self.preloads@.take(j as int), stack_id).len() as int
                },
            decreases n - j,
        {
            let ghost pa = spec_active(self.preloads@.take(j as int), stack_id);
            let ghost pr = rebuilt@;
            let active = self.preloads[j].stack_id == stack_id && !matches!(
                self.preloads[j].state,
                PreLoadState::Deleting,
            );
            if active {
                if dropped < to_drop {
                    dropped = dropped + 1;
                } else {
                    let mut e = clone_preload(&self.preloads[j]);
                    if touch {
                        e.update_timestamp = now_millis;
                    }
                    rebuilt.push(e);
                }
            } else {
                rebuilt.push(clone_preload(&self.preloads[j]));
            }
            j = j + 1;
            proof {
                let tj = self.preloads@.take(j as int);
                assert(tj.drop_last() =~= self.preloads@.take(j as int - 1));
                assert(tj.last() == self.preloads@[j as int - 1]);
                if active {
                    if rebuilt@ != pr {
                        assert(rebuilt@.drop_last() =~= pr);
                    }
                    lemma_touch_snoc(
                        spec_active(tj, stack_id),
                        dropped as int,
                        touch,
                        now_millis,
                    );
                } else {
                    assert(rebuilt@.drop_last() =~= pr);
                }
            }
        }
        proof {
            assert(self.preloads@.take(n as int) =~= self.preloads@);
            assert(spec_active(rebuilt@, stack_id) == spec_touch(
                oldact.skip(dropped_g),
                touch,
                now_millis,
            ));
            assert(spec_active(rebuilt@, stack_id).len() == kept_g);
            assert forall|q: int| 0 <= q < kept_g implies #[trigger] spec_active(
                rebuilt@,
                stack_id,
            )[q] == spec_touched(oldact[dropped_g + q], touch, now_millis) by {
                let tail = oldact.skip(dropped_g);
                assert(tail[q] == oldact[dropped_g + q]);
                if touch {
                    assert(tail.map_values(
                        |e: PreLoad| PreLoad { update_timestamp: now_millis, ..e },
                    )[q] == (PreLoad { update_timestamp: now_millis, ..tail[q] }));
                }
            }
        }

        // Append fresh assignments where growing.
        let mut add: usize = if target > current {
            target - current
        } else {
            0
        };
        while add > 0
            invariant
                *self == *old(self),
                spec_passive(rebuilt@, stack_id) == spec_passive(self.preloads@, stack_id),
                spec_active(rebuilt@, stack_id).len() + add == spec_clamped(replicas as int),
                kept_g <= spec_active(rebuilt@, stack_id).len(),
                forall|q: int|
                    0 <= q < kept_g ==> #[trigger] spec_active(rebuilt@, stack_id)[q]
                        == spec_touched(oldact[dropped_g + q], touch, now_millis),
                forall|q: int|
                    kept_g <= q < spec_active(rebuilt@, stack_id).len() ==> spec_fresh_init(
                        #[trigger] spec_active(rebuilt@, stack_id)[q],
                        stack_id,
                        now_millis,
                    ),
            decreases add,
        {
            let ghost pr = rebuilt@;
            let fresh = PreLoad::new(stack_id, now_millis);
            let ghost fresh_v = fresh;
            rebuilt.push(fresh);
            add = add - 1;
            proof {
                assert(rebuilt@.drop_last() =~= pr);
                assert(rebuilt@.last() == fresh_v);
                assert(spec_is_active(fresh_v, stack_id));
                assert(spec_active(rebuilt@, stack_id) =~= spec_active(pr, stack_id).push(
                    fresh_v,
                ));
                assert(spec_fresh_init(fresh_v, stack_id, now_millis));
            }
        }

        self.preloads = rebuilt;
        proof {
            assert(oldact == spec_active(old(self).preloads@, stack_id));
            assert(oldact.len() != spec_clamped(replicas as int));
            assert(touch == (oldact.len() != spec_clamped(replicas as int) && oldact.len() > 0));
        }
        self.locate_active(stack_id)
    }

    /// The active assignments of a stack.
    #[verifier::loop_isolation(false)]
    fn locate_active(&self, stack_id: u64) -> (r: Vec<PreLoad>)
        ensures
            r@ == spec_active(self.preloads@, stack_id),
    {
        let mut out: Vec<PreLoad> = Vec::new();
        let mut i: usize = 0;
        while i < self.preloads.len()
            invariant
                0 <= i <= self.preloads@.len(),
                out@ == spec_active(self.preloads@.take(i as int), stack_id),
            decreases self.preloads@.len() - i,
        {
            if self.preloads[i].stack_id == stack_id && !matches!(
                self.preloads[i].state,
                PreLoadState::Deleting,
            ) {
                out.push(clone_preload(&self.preloads[i]));
            }
            i = i + 1;
            proof {
                assert(self.preloads@.take(i as int).drop_last() =~= self.preloads@.take(
                    i as int - 1,
                ));
                assert(self.preloads@.take(i as int).last() == self.preloads@[i as int - 1]);
            }
        }
        proof {
            assert(self.preloads@.take(self.preloads@.len() as int) =~= self.preloads@);
        }
        out
    }
}

/// The first *stacks* document of a stack, by index.
pub open spec fn spec_doc_index(stacks: Seq<StackSource>, stack_id: u64) -> Option<int>
    decreases stacks.len(),
{
    if stacks.len() == 0 {
        None
    } else if stacks[0].stack_id == stack_id {
        Some(0)
    } else {
        match spec_doc_index(stacks.drop_first(), stack_id) {
            None => None,
            Some(i) => Some(i + 1),
        }
    }
}

/// What `spec_doc_index` returns: the least matching index, if any.
pub proof fn lemma_doc_index(stacks: Seq<StackSource>, stack_id: u64)
    ensures
        match spec_doc_index(stacks, stack_id) {
            Some(i) => 0 <= i < stacks.len() && stacks[i].stack_id == stack_id && forall|j: int|
                0 <= j < i ==> stacks[j].stack_id != stack_id,
            None => forall|j: int| 0 <= j < stacks.len() ==> stacks[j].stack_id != stack_id,
        },
    decreases stacks.len(),
{
    if stacks.len() > 0 && stacks[0].stack_id != stack_id {
        lemma_doc_index(stacks.drop_first(), stack_id);
        let rest = stacks.drop_first();
        match spec_doc_index(rest, stack_id) {
            Some(i0) => {
                assert(stacks[i0 + 1] == rest[i0]);
                assert forall|j: int| 0 <= j < i0 + 1 implies stacks[j].stack_id != stack_id by {
                    if j > 0 {
                        assert(rest[j - 1] == stacks[j]);
                    }
                }
            },
            None => {
                assert forall|j: int| 0 <= j < stacks.len() implies stacks[j].stack_id
                    != stack_id by {
                    if j > 0 {
                        assert(rest[j - 1] == stacks[j]);
                    }
                }
            },
        }
    }
}

/// A least matching index is what `spec_doc_index` returns.
pub proof fn lemma_doc_index_exact(stacks: Seq<StackSource>, stack_id: u64, i: int)
    requires
        0 <= i < stacks.len(),
        stacks[i].stack_id == stack_id,
        forall|j: int| 0 <= j < i ==> stacks[j].stack_id != stack_id,
    ensures
        spec_doc_index(stacks, stack_id) == Some(i),
    decreases stacks.len(),
{
    if i > 0 {
        lemma_doc_index_exact(stacks.drop_first(), stack_id, i - 1);
    }
}

/// An active set with its kept entries' lock timestamps touched.
pub open spec fn spec_touch(ps: Seq<PreLoad>, touch: bool, now_millis: i64) -> Seq<PreLoad> {
    if touch {
        ps.map_values(|e: PreLoad| PreLoad { update_timestamp: now_millis, ..e })
    } else {
        ps
    }
}

/// One kept entry after a reconciliation: unchanged, or with its lock
/// timestamp touched.
pub open spec fn spec_touched(e: PreLoad, touch: bool, now_millis: i64) -> PreLoad {
    if touch {
        PreLoad { update_timestamp: now_millis, ..e }
    } else {
        e
    }
}

/// A freshly inserted assignment: state `Init`, created now, otherwise blank.
pub open spec fn spec_fresh_init(e: PreLoad, stack_id: u64, now_millis: i64) -> bool {
    &&& e.stack_id == stack_id
    &&& e.state is Init
    &&& e.bserver@ == Seq::<char>::empty()
    &&& e.creation_timestamp == now_millis
    &&& e.loaded_timestamp == i64::MIN
    &&& e.update_timestamp == i64::MIN
}

proof fn lemma_touch_snoc(pa: Seq<PreLoad>, dropped: int, touch: bool, now_millis: i64)
    requires
        0 <= dropped <= pa.len(),
    ensures
        pa.len() > dropped ==> spec_touch(pa.skip(dropped), touch, now_millis) == spec_touch(
            pa.skip(dropped).drop_last(),
            touch,
            now_millis,
        ).push(
            if touch {
                PreLoad { update_timestamp: now_millis, ..pa.last() }
            } else {
                pa.last()
            },
        ),
        pa.len() == dropped ==> spec_touch(pa.skip(dropped), touch, now_millis)
            == Seq::<PreLoad>::empty(),
{
    if pa.len() > dropped {
        let s = pa.skip(dropped);
        assert(s.last() == pa.last());
        if touch {
            let f = |e: PreLoad| PreLoad { update_timestamp: now_millis, ..e };
            assert(s.map_values(f) =~= s.drop_last().map_values(f).push(f(s.last())));
        } else {
            assert(s =~= s.drop_last().push(s.last()));
        }
    } else {
        assert(pa.skip(dropped) =~= Seq::<PreLoad>::empty());
    }
}

proof fn lemma_active_none(ps: Seq<PreLoad>, stack_id: u64)
    requires
        forall|i: int| 0 <= i < ps.len() ==> !spec_is_active(#[trigger] ps[i], stack_id),
    ensures
        spec_active(ps, stack_id).len() == 0,
    decreases ps.len(),
{
    if ps.len() > 0 {
        lemma_active_none(ps.drop_last(), stack_id);
    }
}

/// Stack identifiers never repeat: two successive successful calls return
/// strictly increasing values.
pub proof fn lemma_stack_ids_monotonic(
    s0: AllocationState,
    s1: AllocationState,
    s2: AllocationState,
    r1: u64,
    r2: u64,
)
    requires
        spec_next_id_ok(s0, s1, r1),
        spec_next_id_ok(s1, s2, r2),
    ensures
        r1 < r2,
{
}

/// Among the assignments `locate_stack` returns, those not marked `Deleting`
/// are exactly the active set — so right after `pre_load(stack_id, n)` there
/// are exactly `min(n, MAX_PRELOAD_REPLICAS)` of them (never below zero).
pub proof fn lemma_locate_active(ps: Seq<PreLoad>, stack_id: u64)
    ensures
        spec_not_deleting(spec_located(ps, stack_id)) == spec_active(ps, stack_id),
    decreases ps.len(),
{
    if ps.len() > 0 {
        lemma_locate_active(ps.drop_last(), stack_id);
        let pre_loc = spec_located(ps.drop_last(), stack_id);
        if ps.last().stack_id == stack_id {
            assert(spec_located(ps, stack_id) =~= pre_loc.push(ps.last()));
            lemma_not_deleting_snoc(pre_loc, ps.last());
            assert(spec_not_deleting(spec_located(ps, stack_id)) =~= spec_active(ps, stack_id));
        } else {
            assert(spec_located(ps, stack_id) =~= pre_loc);
            assert(spec_active(ps, stack_id) =~= spec_active(ps.drop_last(), stack_id));
        }
    }
}

/// The assignments of a listing that are not marked `Deleting`, in order.
pub open spec fn spec_not_deleting(ps: Seq<PreLoad>) -> Seq<PreLoad>
    decreases ps.len(),
{
    if ps.len() == 0 {
        Seq::empty()
    } else {
        spec_not_deleting(ps.drop_last()) + (if !(ps.last().state is Deleting) {
            seq![ps.last()]
        } else {
            Seq::empty()
        })
    }
}

proof fn lemma_not_deleting_snoc(ps: Seq<PreLoad>, e: PreLoad)
    ensures
        spec_not_deleting(ps.push(e)) == spec_not_deleting(ps) + (if !(e.state is Deleting) {
            seq![e]
        } else {
            Seq::<PreLoad>::empty()
        }),
{
    assert(ps.push(e).drop_last() =~= ps);
    assert(ps.push(e).last() == e);
}

} // verus!
