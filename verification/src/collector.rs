use crate::object::{DeadObj, HeaderObj, Object};
use crate::object_id::ObjectId;
use crate::objects::{lemma_distinct_bound, Objects};
use crate::result::FsError;
use crate::storage::Store;
use std::collections::VecDeque;
use vstd::prelude::*;

verus! {

/// The pointer, if there is one.
pub open spec fn opt_ptr(p: Option<ObjectId>) -> Seq<ObjectId> {
    match p {
        Some(oid) => seq![oid],
        None => Seq::empty(),
    }
}

/// The objects that `obj` points at, in the order in which the collector
/// visits them.
pub open spec fn pointers(obj: Object) -> Seq<ObjectId> {
    match obj {
        Object::Clone(o) => seq![o.name, o.root] + opt_ptr(o.next),
        Object::Entry(o) => seq![o.name] + opt_ptr(o.body) + opt_ptr(o.next),
        Object::Payload(o) => opt_ptr(o.next),
        _ => Seq::empty(),
    }
}

/// Where the marking starts: the root directory, then the first clone.
pub open spec fn seeds(header: HeaderObj) -> Seq<ObjectId> {
    seq![header.root] + opt_ptr(header.clone)
}

/// `found` followed by what the rest of the list gives.
pub open spec fn prepend_ids(found: Seq<ObjectId>, rest: Result<Seq<ObjectId>, FsError>) -> Result<
    Seq<ObjectId>,
    FsError,
> {
    match rest {
        Ok(rest) => Ok(found + rest),
        Err(e) => Err(e),
    }
}

impl Store {
    /// The slots on the free list from `cursor` on, in list order, walked
    /// for at most `fuel` records. A slot on the list that holds no dead
    /// record, and a list longer than `fuel`, are corrupt.
    pub open spec fn dead_list(self, cursor: Option<ObjectId>, fuel: nat) -> Result<
        Seq<ObjectId>,
        FsError,
    >
        decreases fuel,
    {
        match cursor {
            None => Ok(Seq::empty()),
            Some(oid) => if fuel == 0 {
                Err(FsError::Corrupt)
            } else {
                match self.get(oid) {
                    Ok(Object::Dead(dead)) => prepend_ids(
                        seq![oid],
                        self.dead_list(dead.next, (fuel - 1) as nat),
                    ),
                    Ok(_) => Err(FsError::Corrupt),
                    Err(e) => Err(e),
                }
            },
        }
    }

    /// The objects marked alive once the queue is worked off: those in
    /// `visited`, and what is reached from `queue`. The first of the queue
    /// is taken; unless it is marked already, it is read and marked, and
    /// what it points at joins the end of the queue. An empty, dead or
    /// header object on the way is corrupt; the walk takes at most `fuel`
    /// objects off the queue.
    pub open spec fn mark(self, visited: Set<ObjectId>, queue: Seq<ObjectId>, fuel: nat) -> Result<
        Set<ObjectId>,
        FsError,
    >
        decreases fuel,
    {
        if queue.len() == 0 {
            Ok(visited)
        } else if fuel == 0 {
            Err(FsError::Corrupt)
        } else {
            let oid = queue[0];
            let rest = queue.subrange(1, queue.len() as int);
            if visited.contains(oid) {
                self.mark(visited, rest, (fuel - 1) as nat)
            } else {
                match self.get(oid) {
                    Ok(Object::Empty) => Err(FsError::Corrupt),
                    Ok(Object::Dead(_)) => Err(FsError::Corrupt),
                    Ok(Object::Header(_)) => Err(FsError::Corrupt),
                    Ok(obj) => self.mark(visited.insert(oid), rest + pointers(obj), (fuel - 1) as nat),
                    Err(e) => Err(e),
                }
            }
        }
    }

    /// How many objects the marking may take off its queue: each slot but
    /// the header's is read at most once and adds at most three.
    pub open spec fn mark_fuel(self) -> nat {
        3 * self.len() + 2
    }

    /// The objects that are alive: what is reached from the root directory
    /// and the clone list.
    pub open spec fn alive(self, header: HeaderObj) -> Result<Set<ObjectId>, FsError> {
        self.mark(Set::empty(), seeds(header), self.mark_fuel())
    }

    /// The container and the head of the free list after the slots 1 to
    /// `n` have been swept: a slot that is neither on the free list nor
    /// alive takes a dead record that points at the head so far, and is the
    /// new head.
    pub open spec fn sweep(
        self,
        dead: Seq<ObjectId>,
        alive: Set<ObjectId>,
        head: Option<ObjectId>,
        n: nat,
    ) -> (Store, Option<ObjectId>)
        decreases n,
    {
        if n == 0 {
            (self, head)
        } else {
            let (store, head) = self.sweep(dead, alive, head, (n - 1) as nat);
            let oid = ObjectId(n as u32);
            if dead.contains(oid) || alive.contains(oid) {
                (store, head)
            } else {
                (
                    Store {
                        slots: store.slots.update(
                            n as int,
                            Object::Dead(DeadObj { next: head }).encode_spec(),
                        ),
                        ..store
                    },
                    Some(oid),
                )
            }
        }
    }

    /// The container after one collection: every slot but the header's
    /// that is neither on the free list nor alive is put on the free list,
    /// slots with higher numbers before those with lower ones, before what
    /// was on the list; the header points at the list's new head. The
    /// collection fails where the header, the free list or an object that is
    /// reached cannot be read as what it should be.
    pub open spec fn collect(self) -> Result<Store, FsError> {
        match self.header() {
            Ok(header) => match self.dead_list(header.dead, self.len()) {
                Ok(dead) => match self.alive(header) {
                    Ok(alive) => {
                        let (store, head) = self.sweep(
                            dead,
                            alive,
                            header.dead,
                            (self.len() - 1) as nat,
                        );
                        if head == header.dead {
                            Ok(store)
                        } else {
                            store.set_header(HeaderObj { dead: head, ..header })
                        }
                    },
                    Err(e) => Err(e),
                },
                Err(e) => Err(e),
            },
            Err(e) => Err(e),
        }
    }
}

impl Store {
    /// Whether slot `oid` holds an object that can be alive: a clone, an
    /// entry or a payload record.
    pub open spec fn live_at(self, oid: ObjectId) -> bool {
        self.get(oid) matches Ok(obj) && (obj is Clone || obj is Entry || obj is Payload)
    }

    /// Every slot on a free list that was walked to its end holds a dead
    /// record.
    pub proof fn lemma_dead_list_dead(self, cursor: Option<ObjectId>, fuel: nat)
        requires
            self.dead_list(cursor, fuel).is_ok(),
        ensures
            forall|oid: ObjectId| #[trigger]
                self.dead_list(cursor, fuel).unwrap().contains(oid) ==> self.get(oid) is Ok
                    && self.get(oid).unwrap() is Dead,
        decreases fuel,
    {
        match cursor {
            Some(first) => {
                match self.get(first) {
                    Ok(Object::Dead(dead)) => {
                        self.lemma_dead_list_dead(dead.next, (fuel - 1) as nat);
                        let rest = self.dead_list(dead.next, (fuel - 1) as nat).unwrap();
                        let list = self.dead_list(cursor, fuel).unwrap();
                        assert(list =~= seq![first] + rest);
                        assert forall|oid: ObjectId| #[trigger] list.contains(oid) implies self.get(
                            oid,
                        ) is Ok && self.get(oid).unwrap() is Dead by {
                            let k = choose|k: int| 0 <= k < list.len() && list[k] == oid;
                            if k > 0 {
                                assert(rest[k - 1] == oid);
                                assert(rest.contains(oid));
                            }
                        }
                    },
                    _ => {},
                }
            },
            None => {},
        }
    }

    /// Every object that the marking marks can be alive, and what was
    /// marked before stays marked.
    pub proof fn lemma_mark_live(self, visited: Set<ObjectId>, queue: Seq<ObjectId>, fuel: nat)
        requires
            self.mark(visited, queue, fuel).is_ok(),
            forall|oid: ObjectId| visited.contains(oid) ==> self.live_at(oid),
        ensures
            forall|oid: ObjectId| #[trigger]
                self.mark(visited, queue, fuel).unwrap().contains(oid) ==> self.live_at(oid),
            forall|oid: ObjectId| #[trigger]
                visited.contains(oid) ==> self.mark(visited, queue, fuel).unwrap().contains(oid),
        decreases fuel,
    {
        if queue.len() > 0 && fuel > 0 {
            let oid = queue[0];
            let rest = queue.subrange(1, queue.len() as int);
            if visited.contains(oid) {
                self.lemma_mark_live(visited, rest, (fuel - 1) as nat);
            } else {
                match self.get(oid) {
                    Ok(obj) => {
                        self.lemma_mark_live(
                            visited.insert(oid),
                            rest + pointers(obj),
                            (fuel - 1) as nat,
                        );
                        assert forall|x: ObjectId| #[trigger] visited.contains(x) implies self.mark(
                            visited,
                            queue,
                            fuel,
                        ).unwrap().contains(x) by {
                            assert(visited.insert(oid).contains(x));
                        }
                    },
                    Err(_) => {},
                }
            }
        }
    }

    /// What a sweep does to each slot: a slot up to `n` that is neither on
    /// the free list nor alive holds a dead record afterwards, every other
    /// slot is as before.
    pub proof fn lemma_sweep(
        self,
        dead: Seq<ObjectId>,
        alive: Set<ObjectId>,
        head: Option<ObjectId>,
        n: nat,
    )
        requires
            self.wf(),
            n < self.len(),
        ensures
            ({
                let (store, _) = self.sweep(dead, alive, head, n);
                &&& store.wf()
                &&& store.len() == self.len()
                &&& store.can_grow == self.can_grow
                &&& forall|i: int|
                    0 <= i < self.len() ==> #[trigger] store.slots[i] == if 1 <= i <= n
                        && !dead.contains(ObjectId(i as u32)) && !alive.contains(
                        ObjectId(i as u32),
                    ) {
                        Object::Dead(
                            DeadObj { next: self.sweep(dead, alive, head, (i - 1) as nat).1 },
                        ).encode_spec()
                    } else {
                        self.slots[i]
                    }
            }),
        decreases n,
    {
        if n > 0 {
            self.lemma_sweep(dead, alive, head, (n - 1) as nat);
            let (store, at) = self.sweep(dead, alive, head, (n - 1) as nat);
            Object::Dead(DeadObj { next: at }).lemma_encode_len();
        }
    }

    /// After a collection the container has the slots it had, now sorted
    /// out: slot 0 holds the header, and every other slot holds a clone, an
    /// entry, a payload record or a dead record. No header is left anywhere
    /// else, and no empty slot.
    pub proof fn lemma_collect_types(self)
        requires
            self.wf(),
            self.collect().is_ok(),
        ensures
            ({
                let after = self.collect().unwrap();
                &&& after.wf()
                &&& after.len() == self.len()
                &&& after.can_grow == self.can_grow
                &&& after.single_header()
                &&& forall|i: int|
                    1 <= i < after.len() ==> {
                        let tag = (#[trigger] after.slots[i])[0];
                        tag == 2 || tag == 3 || tag == 5 || tag == 6
                    }
            }),
    {
        let header = self.header().unwrap();
        let dead = self.dead_list(header.dead, self.len()).unwrap();
        let alive = self.alive(header).unwrap();
        let n = (self.len() - 1) as nat;
        let (store, head) = self.sweep(dead, alive, header.dead, n);
        let after = self.collect().unwrap();
        self.lemma_dead_list_dead(header.dead, self.len());
        self.lemma_mark_live(Set::empty(), seeds(header), self.mark_fuel());
        self.lemma_sweep(dead, alive, header.dead, n);
        Object::Header(HeaderObj { dead: head, ..header }).lemma_encode_len();
        assert forall|i: int| 1 <= i < after.len() implies {
            let tag = (#[trigger] after.slots[i])[0];
            tag == 2 || tag == 3 || tag == 5 || tag == 6
        } by {
            let oid = ObjectId(i as u32);
            assert(after.slots[i] == store.slots[i]);
            if dead.contains(oid) {
                assert(self.get(oid).unwrap() is Dead);
            } else if alive.contains(oid) {
                assert(self.live_at(oid));
            } else {
                let next = self.sweep(dead, alive, header.dead, (i - 1) as nat).1;
                assert(Object::Dead(DeadObj { next }).encode_spec()[0] == 6);
            }
        }
    }
}

/// What is in a queue but is not its first object is in the rest of it.
proof fn lemma_in_rest(queue: Seq<ObjectId>, x: ObjectId)
    requires
        queue.contains(x),
        x != queue[0],
    ensures
        queue.subrange(1, queue.len() as int).contains(x),
{
    let k = choose|k: int| 0 <= k < queue.len() && queue[k] == x;
    assert(queue.subrange(1, queue.len() as int)[k - 1] == x);
}

/// What is in the rest of a queue is in the queue.
proof fn lemma_rest_in(queue: Seq<ObjectId>, x: ObjectId)
    requires
        queue.len() > 0,
        queue.subrange(1, queue.len() as int).contains(x),
    ensures
        queue.contains(x),
{
    let rest = queue.subrange(1, queue.len() as int);
    let k = choose|k: int| 0 <= k < rest.len() && rest[k] == x;
    assert(queue[k + 1] == x);
}

/// What is in one of two runs is in both put together, and the other way round.
proof fn lemma_in_both(a: Seq<ObjectId>, b: Seq<ObjectId>, x: ObjectId)
    ensures
        (a + b).contains(x) <==> a.contains(x) || b.contains(x),
{
    if a.contains(x) {
        let k = choose|k: int| 0 <= k < a.len() && a[k] == x;
        assert((a + b)[k] == x);
    }
    if b.contains(x) {
        let k = choose|k: int| 0 <= k < b.len() && b[k] == x;
        assert((a + b)[a.len() + k] == x);
    }
    if (a + b).contains(x) {
        let k = choose|k: int| 0 <= k < (a + b).len() && (a + b)[k] == x;
        if k < a.len() {
            assert(a[k] == x);
        } else {
            assert(b[k - a.len()] == x);
        }
    }
}

impl Store {
    /// Whether slot `from` holds an object that can be alive and points at
    /// `to`.
    pub open spec fn points(self, from: ObjectId, to: ObjectId) -> bool {
        self.live_at(from) && pointers(self.get(from).unwrap()).contains(to)
    }

    /// Whether `path` leads from one of `seeds` along the pointers of
    /// objects that can be alive.
    pub open spec fn is_path(self, seeds: Seq<ObjectId>, path: Seq<ObjectId>) -> bool {
        &&& path.len() > 0
        &&& seeds.contains(path[0])
        &&& forall|i: int| 0 <= i < path.len() - 1 ==> #[trigger] self.points(path[i], path[i + 1])
    }

    /// Whether `oid` is reached from `seeds` along the pointers of objects
    /// that can be alive.
    pub open spec fn reachable(self, seeds: Seq<ObjectId>, oid: ObjectId) -> bool {
        exists|path: Seq<ObjectId>| #[trigger] self.is_path(seeds, path) && path.last() == oid
    }

    /// A seed is reached.
    pub proof fn lemma_reachable_seed(self, seeds: Seq<ObjectId>, oid: ObjectId)
        requires
            seeds.contains(oid),
        ensures
            self.reachable(seeds, oid),
    {
        let path = seq![oid];
        assert(self.is_path(seeds, path) && path.last() == oid);
    }

    /// What an object that is reached points at is reached.
    pub proof fn lemma_reachable_step(self, seeds: Seq<ObjectId>, from: ObjectId, to: ObjectId)
        requires
            self.reachable(seeds, from),
            self.points(from, to),
        ensures
            self.reachable(seeds, to),
    {
        let path = choose|path: Seq<ObjectId>| #[trigger]
            self.is_path(seeds, path) && path.last() == from;
        let longer = path.push(to);
        assert forall|i: int| 0 <= i < longer.len() - 1 implies #[trigger] self.points(
            longer[i],
            longer[i + 1],
        ) by {
            if i < path.len() - 1 {
                assert(self.points(path[i], path[i + 1]));
            }
        }
        assert(self.is_path(seeds, longer) && longer.last() == to);
    }

    /// What the marking has to hold on to while it works off its queue:
    /// what is marked is reached and can be alive, what is queued is
    /// reached, every seed is marked or queued, and so is everything that a
    /// marked object points at.
    pub open spec fn marking(self, seeds: Seq<ObjectId>, visited: Set<ObjectId>, queue: Seq<ObjectId>) -> bool {
        &&& forall|v: ObjectId| #[trigger]
            visited.contains(v) ==> self.reachable(seeds, v) && self.live_at(v)
        &&& forall|q: ObjectId| #[trigger] queue.contains(q) ==> self.reachable(seeds, q)
        &&& forall|s: ObjectId| #[trigger]
            seeds.contains(s) ==> visited.contains(s) || queue.contains(s)
        &&& forall|v: ObjectId, c: ObjectId|
            visited.contains(v) && #[trigger] self.points(v, c) ==> visited.contains(c)
                || queue.contains(c)
    }

    /// Once the queue is empty, everything on a path from a seed is marked.
    proof fn lemma_marked_all(self, seeds: Seq<ObjectId>, visited: Set<ObjectId>, path: Seq<ObjectId>, i: int)
        requires
            self.marking(seeds, visited, Seq::empty()),
            self.is_path(seeds, path),
            0 <= i < path.len(),
        ensures
            visited.contains(path[i]),
        decreases i,
    {
        if i > 0 {
            self.lemma_marked_all(seeds, visited, path, i - 1);
            assert(self.points(path[i - 1], path[i - 1 + 1]));
        }
    }

    /// One step of the marking keeps what it has to hold on to.
    proof fn lemma_marking_step(self, seeds: Seq<ObjectId>, visited: Set<ObjectId>, queue: Seq<ObjectId>)
        requires
            self.marking(seeds, visited, queue),
            queue.len() > 0,
        ensures
            ({
                let oid = queue[0];
                let rest = queue.subrange(1, queue.len() as int);
                if visited.contains(oid) {
                    self.marking(seeds, visited, rest)
                } else {
                    self.live_at(oid) ==> self.marking(
                        seeds,
                        visited.insert(oid),
                        rest + pointers(self.get(oid).unwrap()),
                    )
                }
            }),
    {
        let oid = queue[0];
        let rest = queue.subrange(1, queue.len() as int);
        assert(queue.contains(oid));
        if visited.contains(oid) {
            assert forall|q: ObjectId| #[trigger] rest.contains(q) implies self.reachable(
                seeds,
                q,
            ) by {
                lemma_rest_in(queue, q);
            }
            assert forall|s: ObjectId| #[trigger] seeds.contains(s) implies visited.contains(s)
                || rest.contains(s) by {
                if !visited.contains(s) {
                    lemma_in_rest(queue, s);
                }
            }
            assert forall|v: ObjectId, c: ObjectId|
                visited.contains(v) && #[trigger] self.points(v, c) implies visited.contains(c)
                || rest.contains(c) by {
                if !visited.contains(c) {
                    lemma_in_rest(queue, c);
                }
            }
        } else if self.live_at(oid) {
            let more = pointers(self.get(oid).unwrap());
            let next = rest + more;
            let marked = visited.insert(oid);
            assert forall|q: ObjectId| #[trigger] next.contains(q) implies self.reachable(
                seeds,
                q,
            ) by {
                lemma_in_both(rest, more, q);
                if rest.contains(q) {
                    lemma_rest_in(queue, q);
                } else {
                    self.lemma_reachable_step(seeds, oid, q);
                }
            }
            assert forall|s: ObjectId| #[trigger] seeds.contains(s) implies marked.contains(s)
                || next.contains(s) by {
                if !visited.contains(s) && s != oid {
                    lemma_in_rest(queue, s);
                    lemma_in_both(rest, more, s);
                }
            }
            assert forall|v: ObjectId, c: ObjectId|
                marked.contains(v) && #[trigger] self.points(v, c) implies marked.contains(c)
                || next.contains(c) by {
                lemma_in_both(rest, more, c);
                if v == oid {
                } else if !visited.contains(c) && c != oid {
                    lemma_in_rest(queue, c);
                }
            }
        }
    }

    /// The marking marks exactly what is reached: where it succeeds from a
    /// state that holds what it has to hold on to, an object is marked if
    /// and only if it is reached from the seeds, and every such object can
    /// be alive.
    pub proof fn lemma_mark_reachable(
        self,
        seeds: Seq<ObjectId>,
        visited: Set<ObjectId>,
        queue: Seq<ObjectId>,
        fuel: nat,
    )
        requires
            self.marking(seeds, visited, queue),
            self.mark(visited, queue, fuel).is_ok(),
        ensures
            forall|oid: ObjectId| #[trigger]
                self.mark(visited, queue, fuel).unwrap().contains(oid) <==> self.reachable(
                    seeds,
                    oid,
                ),
            forall|oid: ObjectId| #[trigger]
                self.mark(visited, queue, fuel).unwrap().contains(oid) ==> self.live_at(oid),
        decreases fuel,
    {
        if queue.len() == 0 {
            assert(queue =~= Seq::empty());
            assert forall|oid: ObjectId| #[trigger] visited.contains(oid) <==> self.reachable(
                seeds,
                oid,
            ) by {
                if self.reachable(seeds, oid) {
                    let path = choose|path: Seq<ObjectId>| #[trigger]
                        self.is_path(seeds, path) && path.last() == oid;
                    self.lemma_marked_all(seeds, visited, path, path.len() - 1);
                }
            }
        } else {
            let oid = queue[0];
            let rest = queue.subrange(1, queue.len() as int);
            self.lemma_marking_step(seeds, visited, queue);
            if visited.contains(oid) {
                self.lemma_mark_reachable(seeds, visited, rest, (fuel - 1) as nat);
            } else {
                let obj = self.get(oid).unwrap();
                self.lemma_mark_reachable(
                    seeds,
                    visited.insert(oid),
                    rest + pointers(obj),
                    (fuel - 1) as nat,
                );
            }
        }
    }

    /// The objects that the collector takes as alive are exactly those that
    /// are reached from the root directory and the clone list, and each of
    /// them is a clone, an entry or a payload record.
    pub proof fn lemma_alive_reachable(self, header: HeaderObj)
        requires
            self.alive(header).is_ok(),
        ensures
            forall|oid: ObjectId| #[trigger]
                self.alive(header).unwrap().contains(oid) <==> self.reachable(seeds(header), oid),
            forall|oid: ObjectId| #[trigger]
                self.alive(header).unwrap().contains(oid) ==> self.live_at(oid),
    {
        let start = seeds(header);
        assert forall|q: ObjectId| #[trigger] start.contains(q) implies self.reachable(
            start,
            q,
        ) by {
            self.lemma_reachable_seed(start, q);
        }
        self.lemma_mark_reachable(start, Set::empty(), start, self.mark_fuel());
    }
}

/// The free list after the slots 1 to `n` have been swept: what was
/// collected, higher slots first, before what was on the list.
pub open spec fn swept_list(dead: Seq<ObjectId>, alive: Set<ObjectId>, n: nat) -> Seq<ObjectId>
    decreases n,
{
    if n == 0 {
        dead
    } else {
        let oid = ObjectId(n as u32);
        if dead.contains(oid) || alive.contains(oid) {
            swept_list(dead, alive, (n - 1) as nat)
        } else {
            seq![oid] + swept_list(dead, alive, (n - 1) as nat)
        }
    }
}

impl Store {
    /// A free list that was walked to its end is no longer than the fuel,
    /// and is walked to the same end with any fuel that is enough for it.
    pub proof fn lemma_dead_list_fuel(self, cursor: Option<ObjectId>, fuel: nat, other: nat)
        requires
            self.dead_list(cursor, fuel).is_ok(),
            other >= self.dead_list(cursor, fuel).unwrap().len(),
        ensures
            self.dead_list(cursor, fuel).unwrap().len() <= fuel,
            self.dead_list(cursor, other) == self.dead_list(cursor, fuel),
        decreases fuel,
    {
        match cursor {
            Some(oid) => {
                match self.get(oid) {
                    Ok(Object::Dead(dead)) => {
                        self.lemma_dead_list_fuel(dead.next, (fuel - 1) as nat, (other - 1) as nat);
                    },
                    _ => {},
                }
            },
            None => {},
        }
    }

    /// A free list reads the same in a container in which every slot on
    /// the list reads as it does here.
    pub proof fn lemma_dead_list_frame(self, after: Store, cursor: Option<ObjectId>, fuel: nat)
        requires
            self.dead_list(cursor, fuel).is_ok(),
            forall|oid: ObjectId| #[trigger]
                self.dead_list(cursor, fuel).unwrap().contains(oid) ==> after.get(oid) == self.get(
                    oid,
                ),
        ensures
            after.dead_list(cursor, fuel) == self.dead_list(cursor, fuel),
        decreases fuel,
    {
        match cursor {
            Some(first) => {
                match self.get(first) {
                    Ok(Object::Dead(dead)) => {
                        let rest = self.dead_list(dead.next, (fuel - 1) as nat).unwrap();
                        let list = self.dead_list(cursor, fuel).unwrap();
                        assert(list =~= seq![first] + rest);
                        assert(list[0] == first);
                        assert(list.contains(first));
                        assert forall|oid: ObjectId| #[trigger] rest.contains(oid) implies after.get(
                            oid,
                        ) == self.get(oid) by {
                            lemma_in_both(seq![first], rest, oid);
                        }
                        self.lemma_dead_list_frame(after, dead.next, (fuel - 1) as nat);
                    },
                    _ => {},
                }
            },
            None => {},
        }
    }

    /// From any slot on a free list, the walk finds the rest of the list.
    proof fn lemma_dead_list_suffix(self, cursor: Option<ObjectId>, fuel: nat, k: int)
        requires
            self.dead_list(cursor, fuel).is_ok(),
            0 <= k < self.dead_list(cursor, fuel).unwrap().len(),
        ensures
            k < fuel,
            self.dead_list(Some(self.dead_list(cursor, fuel).unwrap()[k]), (fuel - k) as nat)
                == Ok::<Seq<ObjectId>, FsError>(
                self.dead_list(cursor, fuel).unwrap().subrange(
                    k,
                    self.dead_list(cursor, fuel).unwrap().len() as int,
                ),
            ),
        decreases fuel,
    {
        let list = self.dead_list(cursor, fuel).unwrap();
        match cursor {
            Some(first) => {
                match self.get(first) {
                    Ok(Object::Dead(dead)) => {
                        let rest = self.dead_list(dead.next, (fuel - 1) as nat).unwrap();
                        assert(list =~= seq![first] + rest);
                        if k == 0 {
                            assert(list.subrange(0, list.len() as int) =~= list);
                        } else {
                            self.lemma_dead_list_suffix(dead.next, (fuel - 1) as nat, k - 1);
                            assert(rest[k - 1] == list[k]);
                            assert(rest.subrange(k - 1, rest.len() as int) =~= list.subrange(
                                k,
                                list.len() as int,
                            ));
                        }
                    },
                    _ => {},
                }
            },
            None => {},
        }
    }

    /// No slot is twice on a free list that was walked to its end.
    pub proof fn lemma_dead_list_distinct(self, cursor: Option<ObjectId>, fuel: nat)
        requires
            self.dead_list(cursor, fuel).is_ok(),
        ensures
            self.dead_list(cursor, fuel).unwrap().no_duplicates(),
    {
        let list = self.dead_list(cursor, fuel).unwrap();
        assert forall|i: int, j: int| 0 <= i < list.len() && 0 <= j < list.len() && i != j implies list[i]
            != list[j] by {
            if list[i] == list[j] {
                let (lo, hi) = if i < j {
                    (i, j)
                } else {
                    (j, i)
                };
                self.lemma_dead_list_fuel(cursor, fuel, list.len());
                self.lemma_dead_list_suffix(cursor, fuel, lo);
                self.lemma_dead_list_suffix(cursor, fuel, hi);
                let from = Some(list[lo]);
                let short = list.subrange(hi, list.len() as int);
                self.lemma_dead_list_fuel(from, (fuel - hi) as nat, (fuel - lo) as nat);
                assert(list.subrange(lo, list.len() as int).len() == short.len());
            }
        }
    }

    /// The bound on the walk never cuts a free list short: a list that ends
    /// at all is walked to its end within one step for each slot of the
    /// container.
    pub proof fn lemma_dead_list_bound(self, cursor: Option<ObjectId>, fuel: nat)
        requires
            self.wf(),
            self.dead_list(cursor, fuel).is_ok(),
        ensures
            self.dead_list(cursor, self.len()) == self.dead_list(cursor, fuel),
    {
        let list = self.dead_list(cursor, fuel).unwrap();
        self.lemma_dead_list_dead(cursor, fuel);
        self.lemma_dead_list_distinct(cursor, fuel);
        assert forall|i: int| 0 <= i < list.len() implies 1 <= (#[trigger] list[i]).0
            < self.len() by {
            assert(list.contains(list[i]));
        }
        lemma_distinct_bound(list, self.len());
        self.lemma_dead_list_fuel(cursor, fuel, self.len());
    }

    /// The free list that a sweep builds: after the slots 1 to `n` have
    /// been swept, the list from the new head on is what was collected,
    /// higher slots first, before the old list. It holds a slot exactly
    /// where the old list held it or the slot was collected, and holds no
    /// slot twice.
    pub proof fn lemma_swept_list(
        self,
        dead: Seq<ObjectId>,
        alive: Set<ObjectId>,
        head: Option<ObjectId>,
        n: nat,
    )
        requires
            self.wf(),
            n < self.len(),
            head != Some(ObjectId(0)),
            self.dead_list(head, self.len()) == Ok::<Seq<ObjectId>, FsError>(dead),
        ensures
            ({
                let (store, new_head) = self.sweep(dead, alive, head, n);
                let list = swept_list(dead, alive, n);
                &&& new_head != Some(ObjectId(0))
                &&& store.dead_list(new_head, list.len()) == Ok::<Seq<ObjectId>, FsError>(list)
                &&& list.no_duplicates()
                &&& forall|oid: ObjectId| #[trigger]
                    list.contains(oid) <==> dead.contains(oid) || (1 <= oid.0 <= n
                        && !alive.contains(oid))
            }),
        decreases n,
    {
        if n == 0 {
            self.lemma_dead_list_fuel(head, self.len(), dead.len());
            self.lemma_dead_list_distinct(head, self.len());
        } else {
            self.lemma_swept_list(dead, alive, head, (n - 1) as nat);
            self.lemma_sweep(dead, alive, head, (n - 1) as nat);
            self.lemma_sweep(dead, alive, head, n);
            let (before, old_head) = self.sweep(dead, alive, head, (n - 1) as nat);
            let (store, new_head) = self.sweep(dead, alive, head, n);
            let shorter = swept_list(dead, alive, (n - 1) as nat);
            let list = swept_list(dead, alive, n);
            let oid = ObjectId(n as u32);
            if dead.contains(oid) || alive.contains(oid) {
                assert forall|x: ObjectId| #[trigger] list.contains(x) <==> dead.contains(x) || (1
                    <= x.0 <= n && !alive.contains(x)) by {
                    if x.0 == n {
                        assert(x == oid);
                    }
                }
            } else {
                let record = Object::Dead(DeadObj { next: old_head });
                record.lemma_decode_encode();
                record.lemma_encode_len();
                assert(store.slots[n as int] == record.encode_spec());
                assert(store.get(oid) == Ok::<Object, FsError>(record));
                assert(!shorter.contains(oid));
                assert forall|x: ObjectId| #[trigger] shorter.contains(x) implies store.get(x)
                    == before.get(x) by {
                    if x.0 != 0 && x.0 < before.len() {
                        assert(store.slots[x.0 as int] == before.slots[x.0 as int]);
                    }
                }
                before.lemma_dead_list_frame(store, old_head, shorter.len());
                assert(list =~= seq![oid] + shorter);
                assert(store.dead_list(new_head, list.len()) == Ok::<Seq<ObjectId>, FsError>(list));
                assert forall|i: int, j: int|
                    0 <= i < seq![oid].len() && 0 <= j < shorter.len() implies seq![oid][i]
                    != shorter[j] by {
                    if shorter[j] == oid {
                        assert(shorter.contains(oid));
                    }
                }
                vstd::seq_lib::lemma_no_dup_in_concat(seq![oid], shorter);
                assert forall|x: ObjectId| #[trigger] list.contains(x) <==> dead.contains(x) || (1
                    <= x.0 <= n && !alive.contains(x)) by {
                    lemma_in_both(seq![oid], shorter, x);
                    if seq![oid].contains(x) {
                        assert(x == oid);
                    }
                    if x == oid {
                        assert(seq![oid][0] == x);
                    }
                    if x.0 == n {
                        assert(x == oid);
                    }
                }
            }
        }
    }
}

impl Store {
    /// Everything on a path from a seed is reached.
    proof fn lemma_path_reachable(self, seeds: Seq<ObjectId>, path: Seq<ObjectId>, i: int)
        requires
            self.is_path(seeds, path),
            0 <= i < path.len(),
        ensures
            self.reachable(seeds, path[i]),
    {
        let prefix = path.subrange(0, i + 1);
        assert forall|k: int| 0 <= k < prefix.len() - 1 implies #[trigger] self.points(
            prefix[k],
            prefix[k + 1],
        ) by {
            assert(self.points(path[k], path[k + 1]));
        }
        assert(self.is_path(seeds, prefix) && prefix.last() == path[i]);
    }

    /// A path of another container whose slots read the same as here,
    /// wherever they are reached here, is a path here.
    proof fn lemma_path_back(self, after: Store, seeds: Seq<ObjectId>, path: Seq<ObjectId>, i: int)
        requires
            forall|oid: ObjectId| #[trigger]
                self.reachable(seeds, oid) ==> after.get(oid) == self.get(oid),
            after.is_path(seeds, path),
            0 <= i < path.len(),
        ensures
            self.reachable(seeds, path[i]),
        decreases i,
    {
        if i == 0 {
            self.lemma_reachable_seed(seeds, path[0]);
        } else {
            self.lemma_path_back(after, seeds, path, i - 1);
            assert(after.points(path[i - 1], path[i - 1 + 1]));
            self.lemma_reachable_step(seeds, path[i - 1], path[i]);
        }
    }

    /// What is reached depends on what is reached alone: in a container
    /// in which every slot that is reached here reads as it does here, the
    /// same slots are reached.
    pub proof fn lemma_reachable_frame(self, after: Store, seeds: Seq<ObjectId>)
        requires
            forall|oid: ObjectId| #[trigger]
                self.reachable(seeds, oid) ==> after.get(oid) == self.get(oid),
        ensures
            forall|oid: ObjectId| #[trigger]
                after.reachable(seeds, oid) <==> self.reachable(seeds, oid),
    {
        assert forall|oid: ObjectId| #[trigger] after.reachable(seeds, oid) <==> self.reachable(
            seeds,
            oid,
        ) by {
            if self.reachable(seeds, oid) {
                let path = choose|path: Seq<ObjectId>| #[trigger]
                    self.is_path(seeds, path) && path.last() == oid;
                assert forall|i: int| 0 <= i < path.len() - 1 implies #[trigger] after.points(
                    path[i],
                    path[i + 1],
                ) by {
                    self.lemma_path_reachable(seeds, path, i);
                    assert(self.points(path[i], path[i + 1]));
                }
                assert(after.is_path(seeds, path) && path.last() == oid);
            }
            if after.reachable(seeds, oid) {
                let path = choose|path: Seq<ObjectId>| #[trigger]
                    after.is_path(seeds, path) && path.last() == oid;
                self.lemma_path_back(after, seeds, path, path.len() - 1);
            }
        }
    }

    /// After a collection every slot is sorted out. The container has the
    /// slots it had. Its free list can be walked to its end, holds no slot
    /// twice, and every slot on it holds a dead record. What is reached from
    /// the root directory and the clone list is what was reached before,
    /// reads as it did, and is a clone, an entry or a payload record. And
    /// every slot but the header's is either reached or on the free list,
    /// never both.
    pub proof fn lemma_collect_partition(self)
        requires
            self.wf(),
            self.collect().is_ok(),
        ensures
            ({
                let after = self.collect().unwrap();
                &&& after.len() == self.len()
                &&& self.header() matches Ok(was) && after.header() matches Ok(header) && {
                    &&& header.root == was.root
                    &&& header.clone == was.clone
                    &&& after.dead_list(header.dead, after.len()) matches Ok(dead) && {
                        &&& dead.no_duplicates()
                        &&& forall|oid: ObjectId| #[trigger]
                            dead.contains(oid) ==> after.get(oid) is Ok && after.get(
                                oid,
                            ).unwrap() is Dead
                        &&& forall|oid: ObjectId|
                            1 <= oid.0 < after.len() ==> (#[trigger] dead.contains(oid)
                                <==> !after.reachable(seeds(header), oid))
                    }
                    &&& forall|oid: ObjectId| #[trigger]
                        after.reachable(seeds(header), oid) <==> self.reachable(seeds(was), oid)
                    &&& forall|oid: ObjectId| #[trigger]
                        after.reachable(seeds(header), oid) ==> after.live_at(oid) && after.get(oid)
                            == self.get(oid)
                }
            }),
    {
        let was = self.header().unwrap();
        let old_dead = self.dead_list(was.dead, self.len()).unwrap();
        let alive = self.alive(was).unwrap();
        let n = (self.len() - 1) as nat;
        let (store, head) = self.sweep(old_dead, alive, was.dead, n);
        let after = self.collect().unwrap();
        let list = swept_list(old_dead, alive, n);
        let header = HeaderObj { dead: head, ..was };
        Object::lemma_decode_wf(self.slots[0]);
        self.lemma_dead_list_dead(was.dead, self.len());
        self.lemma_alive_reachable(was);
        self.lemma_sweep(old_dead, alive, was.dead, n);
        self.lemma_swept_list(old_dead, alive, was.dead, n);
        Object::Header(header).lemma_decode_encode();
        Object::Header(header).lemma_encode_len();
        assert(after.header() == Ok::<HeaderObj, FsError>(header));
        assert(seeds(header) == seeds(was));
        // the slots on the new list are slots of the container
        assert forall|i: int| 0 <= i < list.len() implies 1 <= (#[trigger] list[i]).0
            < self.len() by {
            assert(list.contains(list[i]));
        }
        lemma_distinct_bound(list, self.len());
        // the walk of the swept container is the walk of the result
        assert forall|oid: ObjectId| #[trigger] list.contains(oid) implies after.get(oid)
            == store.get(oid) by {
            assert(after.slots[oid.0 as int] == store.slots[oid.0 as int]);
        }
        store.lemma_dead_list_frame(after, head, list.len());
        after.lemma_dead_list_fuel(head, list.len(), after.len());
        after.lemma_dead_list_dead(head, after.len());
        // what is reached is kept
        assert forall|oid: ObjectId| #[trigger] self.reachable(seeds(was), oid) implies after.get(
            oid,
        ) == self.get(oid) by {
            assert(alive.contains(oid));
            assert(self.live_at(oid));
            assert(after.slots[oid.0 as int] == store.slots[oid.0 as int]);
        }
        self.lemma_reachable_frame(after, seeds(was));
        assert forall|oid: ObjectId| 1 <= oid.0 < after.len() implies (#[trigger] list.contains(oid)
            <==> !after.reachable(seeds(header), oid)) by {
            if alive.contains(oid) {
                assert(self.live_at(oid));
                if old_dead.contains(oid) {
                    assert(self.get(oid).unwrap() is Dead);
                }
            }
        }
    }
}

/// How many of the slots 1 to `n - 1` are not marked.
pub open spec fn unmarked(visited: Set<ObjectId>, n: nat) -> nat
    decreases n,
{
    if n <= 1 {
        0
    } else {
        unmarked(visited, (n - 1) as nat) + if visited.contains(ObjectId((n - 1) as u32)) {
            0nat
        } else {
            1nat
        }
    }
}

/// Marking a slot that was not marked leaves one unmarked slot fewer.
proof fn lemma_unmarked_insert(visited: Set<ObjectId>, oid: ObjectId, n: nat)
    requires
        n <= u32::MAX,
        !visited.contains(oid),
    ensures
        unmarked(visited.insert(oid), n) + (if 1 <= oid.0 < n {
            1nat
        } else {
            0nat
        }) == unmarked(visited, n),
    decreases n,
{
    if n > 1 {
        lemma_unmarked_insert(visited, oid, (n - 1) as nat);
        let last = ObjectId((n - 1) as u32);
        if last == oid {
        } else {
            assert(visited.insert(oid).contains(last) == visited.contains(last));
        }
    }
}

impl Store {
    /// The marking does not run out of fuel: with three steps for every
    /// slot that is not marked yet and one for every queued object, it
    /// succeeds wherever every object it reaches can be alive.
    proof fn lemma_mark_ok(
        self,
        seeds: Seq<ObjectId>,
        visited: Set<ObjectId>,
        queue: Seq<ObjectId>,
        fuel: nat,
    )
        requires
            self.wf(),
            self.marking(seeds, visited, queue),
            forall|oid: ObjectId| #[trigger] self.reachable(seeds, oid) ==> self.live_at(oid),
            fuel >= queue.len() + 3 * unmarked(visited, self.len()),
        ensures
            self.mark(visited, queue, fuel).is_ok(),
        decreases fuel,
    {
        if queue.len() > 0 {
            let oid = queue[0];
            let rest = queue.subrange(1, queue.len() as int);
            assert(queue.contains(oid));
            self.lemma_marking_step(seeds, visited, queue);
            if visited.contains(oid) {
                self.lemma_mark_ok(seeds, visited, rest, (fuel - 1) as nat);
            } else {
                assert(self.reachable(seeds, oid));
                assert(self.live_at(oid));
                let obj = self.get(oid).unwrap();
                lemma_unmarked_insert(visited, oid, self.len());
                assert(pointers(obj).len() <= 3);
                self.lemma_mark_ok(
                    seeds,
                    visited.insert(oid),
                    rest + pointers(obj),
                    (fuel - 1) as nat,
                );
            }
        }
    }

    /// No slot of a container of `n` slots is unmarked more than once.
    proof fn lemma_unmarked_bound(visited: Set<ObjectId>, n: nat)
        ensures
            unmarked(visited, n) + 1 <= n || n == 0,
        decreases n,
    {
        if n > 1 {
            Self::lemma_unmarked_bound(visited, (n - 1) as nat);
        }
    }

    /// A collection succeeds wherever there is something to collect from:
    /// where the header can be read, the free list can be walked to its
    /// end, and every object that is reached from the root directory and
    /// the clone list is a clone, an entry or a payload record.
    pub proof fn lemma_collect_ok(self)
        requires
            self.wf(),
            self.header() matches Ok(header) && self.dead_list(header.dead, self.len()).is_ok() && (
            forall|oid: ObjectId| #[trigger]
                self.reachable(seeds(header), oid) ==> self.live_at(oid)),
        ensures
            self.collect().is_ok(),
    {
        let header = self.header().unwrap();
        let start = seeds(header);
        assert forall|q: ObjectId| #[trigger] start.contains(q) implies self.reachable(
            start,
            q,
        ) by {
            self.lemma_reachable_seed(start, q);
        }
        Self::lemma_unmarked_bound(Set::empty(), self.len());
        self.lemma_mark_ok(start, Set::empty(), start, self.mark_fuel());
        let dead = self.dead_list(header.dead, self.len()).unwrap();
        let alive = self.alive(header).unwrap();
        self.lemma_sweep(dead, alive, header.dead, (self.len() - 1) as nat);
    }
}

/// A free list that was walked to its end holds the slot it starts at.
pub proof fn lemma_dead_list_head(store: Store, cursor: Option<ObjectId>, fuel: nat)
    requires
        store.dead_list(cursor, fuel).is_ok(),
    ensures
        cursor matches Some(oid) ==> store.dead_list(cursor, fuel).unwrap().contains(oid),
{
    match cursor {
        Some(oid) => {
            let list = store.dead_list(cursor, fuel).unwrap();
            assert(list[0] == oid);
        },
        None => {},
    }
}

/// One flag for each slot, none set.
fn no_marks(n: u32) -> (r: Vec<bool>)
    ensures
        r@.len() == n,
        forall|i: int| 0 <= i < n ==> !r@[i],
{
    let mut marks: Vec<bool> = Vec::new();
    let mut i: u32 = 0;
    while i < n
        invariant
            i <= n,
            marks@.len() == i,
            forall|j: int| 0 <= j < i ==> !marks@[j],
        decreases n - i,
    {
        marks.push(false);
        i += 1;
    }
    marks
}

/// Puts what `obj` points at behind the queue.
fn push_pointers(pending: &mut VecDeque<ObjectId>, obj: &Object)
    ensures
        final(pending)@ == old(pending)@ + pointers(*obj),
{
    match obj {
        Object::Clone(o) => {
            pending.push_back(o.name);
            pending.push_back(o.root);
            if let Some(next) = o.next {
                pending.push_back(next);
            }
        },
        Object::Entry(o) => {
            pending.push_back(o.name);
            if let Some(body) = o.body {
                pending.push_back(body);
            }
            if let Some(next) = o.next {
                pending.push_back(next);
            }
        },
        Object::Payload(o) => {
            if let Some(next) = o.next {
                pending.push_back(next);
            }
        },
        _ => {},
    }
    assert(pending@ =~= old(pending)@ + pointers(*obj));
}

/// Marks the slots that are on the free list already.
fn find_known_dead_objects(objects: &Objects, header: HeaderObj) -> (r: Result<
    (Vec<bool>, Ghost<Seq<ObjectId>>),
    FsError,
>)
    requires
        objects.wf(),
    ensures
        match r {
            Ok((marks, dead)) => {
                &&& objects@.dead_list(header.dead, objects@.len()) == Ok::<Seq<ObjectId>, FsError>(
                    dead@,
                )
                &&& marks@.len() == objects@.len()
                &&& forall|i: int|
                    0 <= i < marks@.len() ==> marks@[i] == dead@.contains(ObjectId(i as u32))
            },
            Err(e) => objects@.dead_list(header.dead, objects@.len()) == Err::<
                Seq<ObjectId>,
                FsError,
            >(e),
        },
{
    let n = objects.len()?;
    let mut marks = no_marks(n);
    let mut cursor = header.dead;
    let mut fuel = n;
    let ghost mut found: Seq<ObjectId> = Seq::empty();
    proof {
        objects.lemma_wf();
        match objects@.dead_list(cursor, fuel as nat) {
            Ok(rest) => assert(found + rest =~= rest),
            Err(_) => {},
        }
    }
    while cursor.is_some()
        invariant
            objects.wf(),
            n == objects@.len(),
            marks@.len() == n,
            forall|i: int| 0 <= i < n ==> marks@[i] == found.contains(ObjectId(i as u32)),
            prepend_ids(found, objects@.dead_list(cursor, fuel as nat)) == objects@.dead_list(
                header.dead,
                objects@.len(),
            ),
        decreases fuel,
    {
        let oid = cursor.unwrap();
        if fuel == 0 {
            return Err(FsError::Corrupt);
        }
        let dead = objects.get(oid)?.into_dead(oid)?;
        marks[oid.0 as usize] = true;
        proof {
            match objects@.dead_list(dead.next, (fuel - 1) as nat) {
                Ok(rest) => assert(found + (seq![oid] + rest) =~= found.push(oid) + rest),
                Err(_) => {},
            }
            let before = found;
            found = found.push(oid);
            assert forall|i: int| 0 <= i < n implies marks@[i] == found.contains(
                ObjectId(i as u32),
            ) by {
                let x = ObjectId(i as u32);
                if before.contains(x) {
                    let k = choose|k: int| 0 <= k < before.len() && before[k] == x;
                    assert(found[k] == x);
                }
                if x == oid {
                    assert(found[found.len() - 1] == x);
                }
            }
        }
        cursor = dead.next;
        fuel -= 1;
    }
    assert(found + Seq::<ObjectId>::empty() =~= found);
    Ok((marks, Ghost(found)))
}

/// Marks the slots that are reached from the root directory and the clones.
fn find_alive_objects(objects: &Objects, header: HeaderObj) -> (r: Result<
    (Vec<bool>, Ghost<Set<ObjectId>>),
    FsError,
>)
    requires
        objects.wf(),
    ensures
        match r {
            Ok((marks, alive)) => {
                &&& objects@.alive(header) == Ok::<Set<ObjectId>, FsError>(alive@)
                &&& marks@.len() == objects@.len()
                &&& forall|i: int|
                    0 <= i < marks@.len() ==> marks@[i] == alive@.contains(ObjectId(i as u32))
            },
            Err(e) => objects@.alive(header) == Err::<Set<ObjectId>, FsError>(e),
        },
{
    let n = objects.len()?;
    let mut marks = no_marks(n);
    let mut pending: VecDeque<ObjectId> = VecDeque::new();
    pending.push_back(header.root);
    if let Some(clone) = header.clone {
        pending.push_back(clone);
    }
    let mut fuel: u64 = 3 * (n as u64) + 2;
    let ghost mut visited: Set<ObjectId> = Set::empty();
    proof {
        objects.lemma_wf();
        assert(pending@ =~= seeds(header));
    }
    loop
        invariant
            objects.wf(),
            n == objects@.len(),
            marks@.len() == n,
            forall|i: int| 0 <= i < n ==> marks@[i] == visited.contains(ObjectId(i as u32)),
            forall|o: ObjectId| visited.contains(o) ==> o.0 < n,
            objects@.mark(visited, pending@, fuel as nat) == objects@.alive(header),
        decreases fuel,
    {
        let oid = match pending.pop_front() {
            Some(oid) => oid,
            None => {
                return Ok((marks, Ghost(visited)));
            },
        };
        if fuel == 0 {
            return Err(FsError::Corrupt);
        }
        fuel -= 1;
        if oid.0 < n && marks[oid.0 as usize] {
            continue ;
        }
        let obj = objects.get(oid)?;
        match obj {
            Object::Empty => {
                return Err(FsError::Corrupt);
            },
            Object::Dead(_) => {
                return Err(FsError::Corrupt);
            },
            Object::Header(_) => {
                return Err(FsError::Corrupt);
            },
            _ => {},
        }
        marks[oid.0 as usize] = true;
        push_pointers(&mut pending, &obj);
        proof {
            visited = visited.insert(oid);
        }
    }
}

/// Puts every slot that is neither marked dead nor marked alive on the free
/// list, and points the header at the list's new head.
fn collect_objects(
    objects: &mut Objects,
    header: HeaderObj,
    known_dead: &Vec<bool>,
    alive: &Vec<bool>,
    Ghost(dead): Ghost<Seq<ObjectId>>,
    Ghost(reached): Ghost<Set<ObjectId>>,
) -> (r: Result<(), FsError>)
    requires
        old(objects).wf(),
        old(objects)@.header() == Ok::<HeaderObj, FsError>(header),
        old(objects)@.dead_list(header.dead, old(objects)@.len()) == Ok::<Seq<ObjectId>, FsError>(
            dead,
        ),
        known_dead@.len() == old(objects)@.len(),
        alive@.len() == old(objects)@.len(),
        forall|i: int|
            0 <= i < known_dead@.len() ==> known_dead@[i] == dead.contains(ObjectId(i as u32)),
        forall|i: int| 0 <= i < alive@.len() ==> alive@[i] == reached.contains(ObjectId(i as u32)),
    ensures
        final(objects).wf(),
        r.is_ok(),
        ({
            let (store, head) = old(objects)@.sweep(
                dead,
                reached,
                header.dead,
                (old(objects)@.len() - 1) as nat,
            );
            if head == header.dead {
                final(objects)@ == store
            } else {
                store.set_header(HeaderObj { dead: head, ..header }) == Ok::<Store, FsError>(
                    final(objects)@,
                )
            }
        }),
{
    let n = match objects.len() {
        Ok(n) => n,
        Err(e) => {
            return Err(e);
        },
    };
    proof {
        objects.lemma_wf();
        lemma_dead_list_head(objects@, header.dead, objects@.len());
    }
    let mut head = header.dead;
    let mut changed = false;
    let mut oid: u32 = 1;
    while oid < n
        invariant
            objects.wf(),
            1 <= oid <= n,
            n == old(objects)@.len(),
            objects@.len() == n,
            known_dead@.len() == n,
            alive@.len() == n,
            forall|i: int| 0 <= i < n ==> known_dead@[i] == dead.contains(ObjectId(i as u32)),
            forall|i: int| 0 <= i < n ==> alive@[i] == reached.contains(ObjectId(i as u32)),
            old(objects)@.sweep(dead, reached, header.dead, (oid - 1) as nat) == (objects@, head),
            changed == (head != header.dead),
            header.dead matches Some(d) ==> dead.contains(d),
        decreases n - oid,
    {
        let ghost before = objects@;
        let ghost prev = head;
        if !known_dead[oid as usize] && !alive[oid as usize] {
            let done = objects.set(ObjectId::new(oid), Object::Dead(DeadObj { next: head }));
            assert(done.is_ok());
            head = Some(ObjectId::new(oid));
            changed = true;
            assert(!dead.contains(ObjectId(oid)));
        }
        assert(old(objects)@.sweep(dead, reached, header.dead, oid as nat) == (objects@, head)) by {
            assert(old(objects)@.sweep(dead, reached, header.dead, (oid - 1) as nat) == (
                before,
                prev,
            ));
        }
        oid += 1;
    }
    if changed {
        let done = objects.set_header(
            HeaderObj { root: header.root, clone: header.clone, dead: head },
        );
        assert(done.is_ok());
    }
    Ok(())
}

/// Reclaims the slots that nothing points at.
#[derive(Debug)]
pub struct Collector<'a> {
    pub objects: &'a mut Objects,
}

impl<'a> Collector<'a> {
    pub fn new(objects: &'a mut Objects) -> (r: Self)
        ensures
            *r.objects == *old(objects),
            *final(r.objects) == *final(objects),
    {
        Self { objects }
    }

    /// Runs one collection; a failed one leaves the container as it was.
    pub fn run(self) -> (r: Result<(), FsError>)
        requires
            old(self.objects).wf(),
        ensures
            final(self.objects).wf(),
            match r {
                Ok(_) => {
                    &&& old(self.objects)@.collect() == Ok::<Store, FsError>(final(self.objects)@)
                    &&& final(self.objects)@.single_header()
                },
                Err(e) => {
                    &&& old(self.objects)@.collect() == Err::<Store, FsError>(e)
                    &&& final(self.objects)@ == old(self.objects)@
                },
            },
    {
        collect(self.objects)
    }
}

/// Runs one collection on `objects`; a failed one leaves them as they were.
pub fn collect(objects: &mut Objects) -> (r: Result<(), FsError>)
    requires
        old(objects).wf(),
    ensures
        final(objects).wf(),
        match r {
            Ok(_) => {
                &&& old(objects)@.collect() == Ok::<Store, FsError>(final(objects)@)
                &&& final(objects)@.single_header()
            },
            Err(e) => {
                &&& old(objects)@.collect() == Err::<Store, FsError>(e)
                &&& final(objects)@ == old(objects)@
            },
        },
{
    proof {
        objects.lemma_wf();
        if objects@.collect().is_ok() {
            objects@.lemma_collect_types();
        }
    }
    let header = objects.get_header()?;
    let (known_dead, dead) = find_known_dead_objects(objects, header)?;
    let (alive, reached) = find_alive_objects(objects, header)?;
    collect_objects(objects, header, &known_dead, &alive, dead, reached)
}

} // verus!
