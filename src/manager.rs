use vstd::prelude::*;
use crate::sort::{
    arranged, deps_resolve, has_topological_order, is_kahn_order, sort_services, unique_ids,
    SortError,
};
use crate::types::{dep_ids, pid_consistent, same_service, Service, Status};

verus! {

/// The edges of the status machine, and staying put.
pub open spec fn transition_allowed(from: Status, to: Status) -> bool {
    ||| from == to
    ||| from == Status::Stopped && to == Status::Starting
    ||| from == Status::Starting && to == Status::Running
    ||| from == Status::Running && to == Status::Stopping
    ||| from == Status::Stopping && to == Status::Stopped
}

/// `b` is `a` with at most its status and pid changed.
pub open spec fn same_but_state(a: Service, b: Service) -> bool {
    &&& b.name@ == a.name@
    &&& b.id@ == a.id@
    &&& b.exec_line.0@ == a.exec_line.0@
    &&& b.enabled == a.enabled
    &&& dep_ids(b) == dep_ids(a)
    &&& b.io@ == a.io@
}

/// From `a` to `b` every service keeps its identity and moves along an
/// edge of the status machine, if at all.
pub open spec fn steps_allowed(a: Seq<Service>, b: Seq<Service>) -> bool {
    &&& b.len() == a.len()
    &&& forall|i: int|
        0 <= i < a.len() ==> same_but_state(a[i], #[trigger] b[i]) && transition_allowed(
            a[i].status,
            b[i].status,
        )
}

/// A service that a ready signal from `origin` promotes.
pub open spec fn promoted(s: Service, origin: i32) -> bool {
    s.status == Status::Starting && s.pid == Some(origin)
}

/// `b` is `a` after a ready signal from `origin`.
pub open spec fn ready_applied(a: Seq<Service>, b: Seq<Service>, origin: i32) -> bool {
    &&& b.len() == a.len()
    &&& forall|i: int|
        0 <= i < a.len() ==> {
            &&& same_but_state(a[i], #[trigger] b[i])
            &&& b[i].pid == a[i].pid
            &&& b[i].status == if promoted(a[i], origin) {
                Status::Running
            } else {
                a[i].status
            }
        }
}

/// A dependency named `id` is a service of `s` that runs.
pub open spec fn running_id(s: Seq<Service>, id: Seq<char>) -> bool {
    exists|j: int| 0 <= j < s.len() && #[trigger] s[j].id@ == id && s[j].status == Status::Running
}

/// `b` is the service of the entry `a`, with the entry's key as its id.
pub open spec fn keyed(a: (String, Service), b: Service) -> bool {
    &&& b.id@ == a.0@
    &&& b.name@ == a.1.name@
    &&& b.exec_line.0@ == a.1.exec_line.0@
    &&& b.enabled == a.1.enabled
    &&& dep_ids(b) == dep_ids(a.1)
    &&& b.io@ == a.1.io@
    &&& b.status == a.1.status
    &&& b.pid == a.1.pid
}

/// `r` is what building a manager from `entries` gives, where `named` holds
/// the entries' services with their keys as ids.
pub open spec fn built_from(
    entries: Seq<(String, Service)>,
    named: Seq<Service>,
    r: Result<Manager, SortError>,
) -> bool {
    &&& named.len() == entries.len()
    &&& forall|i: int| 0 <= i < named.len() ==> keyed(entries[i], #[trigger] named[i])
    &&& match r {
        Ok(m) => {
            &&& m.wf()
            &&& exists|o: Seq<usize>| is_kahn_order(named, o) && arranged(named, o, m.services@)
        },
        Err(e) => {
            &&& (e is UnknownDependency <==> !deps_resolve(named))
            &&& (e is CycleDetected <==> (deps_resolve(named) && !has_topological_order(named)))
        },
    }
}

/// Why a service could not be stopped.
#[derive(Clone, Copy, Debug, PartialEq, Eq, Structural)]
pub enum StopError {
    /// No service has that id.
    UnknownService,
    /// The service is not running.
    NotRunning,
}

/// What a child's exit means for the supervisor.
#[derive(Clone, Copy, Debug, PartialEq, Eq, Structural)]
pub enum ExitOutcome {
    /// The service was stopping and is now stopped.
    Stopped,
    /// The child exited unasked: the supervisor must end.
    Fatal,
}

/// The services in start order, with their lifecycle state.
pub struct Manager {
    pub services: Vec<Service>,
}

impl Manager {
    pub open spec fn wf(&self) -> bool {
        &&& unique_ids(self.services@)
        &&& forall|i: int| 0 <= i < self.services@.len() ==> pid_consistent(#[trigger] self.services@[i])
    }

    /// Gives each service its key as id and sorts them into start order.
    pub fn new(entries: Vec<(String, Service)>) -> (r: Result<Manager, SortError>)
        requires
            forall|i: int, j: int| 0 <= i < j < entries@.len() ==> entries@[i].0@ != entries@[j].0@,
            forall|i: int| 0 <= i < entries@.len() ==> pid_consistent(#[trigger] entries@[i].1),
        ensures
            exists|named: Seq<Service>| #[trigger] built_from(entries@, named, r),
    {
        let mut named: Vec<Service> = Vec::new();
        let mut entries = entries;
        let ghost all = entries@;
        let mut i: usize = 0;
        let n = entries.len();
        while i < n
            invariant
                n == all.len(),
                entries@ == all,
                i <= n,
                named@.len() == i,
                forall|j: int| 0 <= j < i ==> keyed(all[j], #[trigger] named@[j]),
            decreases n - i,
        {
            let mut s = entries[i].1.duplicate();
            s.id = entries[i].0.clone();
            named.push(s);
            i = i + 1;
        }
        proof {
            assert forall|a: int, b: int| 0 <= a < b < named@.len() implies named@[a].id@
                != named@[b].id@ by {
                assert(keyed(all[a], named@[a]));
                assert(keyed(all[b], named@[b]));
            }
        }
        match sort_services(named.as_slice()) {
            Ok(out) => {
                proof {
                    let o = choose|o: Seq<usize>| is_kahn_order(named@, o) && arranged(named@, o, out@);
                    assert forall|a: int, b: int| 0 <= a < b < out@.len() implies out@[a].id@
                        != out@[b].id@ by {
                        assert(same_service(named@[o[a] as int], out@[a]));
                        assert(same_service(named@[o[b] as int], out@[b]));
                        assert(o[a] != o[b]);
                        if o[a] < o[b] {
                            assert(named@[o[a] as int].id@ != named@[o[b] as int].id@);
                        } else {
                            assert(named@[o[b] as int].id@ != named@[o[a] as int].id@);
                        }
                    }
                    assert forall|a: int| 0 <= a < out@.len() implies pid_consistent(
                        #[trigger] out@[a],
                    ) by {
                        assert(same_service(named@[o[a] as int], out@[a]));
                        assert(keyed(all[o[a] as int], named@[o[a] as int]));
                        assert(pid_consistent(all[o[a] as int].1));
                    }
                }
                let r = Ok(Manager { services: out });
                assert(built_from(all, named@, r));
                r
            },
            Err(e) => {
                let r = Err(e);
                assert(built_from(all, named@, r));
                r
            },
        }
    }

    /// The index of the service with the given id.
    pub fn find(&self, id: &str) -> (r: Option<usize>)
        ensures
            match r {
                Some(i) => i < self.services@.len() && self.services@[i as int].id@ == id@,
                None => forall|i: int| 0 <= i < self.services@.len() ==> self.services@[i].id@ != id@,
            },
    {
        let mut i: usize = 0;
        while i < self.services.len()
            invariant
                i <= self.services@.len(),
                forall|j: int| 0 <= j < i ==> self.services@[j].id@ != id@,
            decreases self.services@.len() - i,
        {
            if self.services[i].has_id(id) {
                return Some(i);
            }
            i = i + 1;
        }
        None
    }

    /// The indices, in start order, of the services that starting takes up:
    /// enabled and stopped.
    pub fn startable(&self) -> (r: Vec<usize>)
        ensures
            forall|k: int| 0 <= k < r@.len() ==> (#[trigger] r@[k] as int) < self.services@.len(),
            forall|k: int, l: int| 0 <= k < l < r@.len() ==> r@[k] < r@[l],
            forall|i: int|
                0 <= i < self.services@.len() ==> (r@.contains(i as usize) <==> (
                self.services@[i].enabled && self.services@[i].status == Status::Stopped)),
    {
        let mut r: Vec<usize> = Vec::new();
        let mut i: usize = 0;
        while i < self.services.len()
            invariant
                i <= self.services@.len(),
                forall|k: int| 0 <= k < r@.len() ==> (#[trigger] r@[k] as int) < i,
                forall|k: int, l: int| 0 <= k < l < r@.len() ==> r@[k] < r@[l],
                forall|j: int|
                    0 <= j < i ==> (r@.contains(j as usize) <==> (self.services@[j].enabled
                        && self.services@[j].status == Status::Stopped)),
            decreases self.services@.len() - i,
        {
            let s = &self.services[i];
            let ghost before = r@;
            if s.enabled && s.status == Status::Stopped {
                r.push(i);
                proof {
                    assert(r@[r@.len() - 1] == i);
                    assert forall|j: int| 0 <= j < i + 1 implies (r@.contains(j as usize) <==> (
                    self.services@[j].enabled && self.services@[j].status == Status::Stopped)) by {
                        if r@.contains(j as usize) && j < i {
                            let k = choose|k: int| 0 <= k < r@.len() && r@[k] == j as usize;
                            assert(k < before.len());
                            assert(before.contains(j as usize));
                        }
                        if j < i && before.contains(j as usize) {
                            let k = choose|k: int| 0 <= k < before.len() && before[k] == j as usize;
                            assert(r@[k] == j as usize);
                        }
                    }
                }
            } else {
                proof {
                    assert(!before.contains(i as usize));
                }
            }
            i = i + 1;
        }
        r
    }

    /// Replaces the status and pid of service `i`.
    fn set_state(&mut self, i: usize, status: Status, pid: Option<i32>)
        requires
            i < old(self).services@.len(),
        ensures
            final(self).services@.len() == old(self).services@.len(),
            same_but_state(old(self).services@[i as int], final(self).services@[i as int]),
            final(self).services@[i as int].status == status,
            final(self).services@[i as int].pid == pid,
            forall|j: int|
                0 <= j < old(self).services@.len() && j != i ==> final(self).services@[j]
                    == old(self).services@[j],
    {
        let mut s = self.services[i].duplicate();
        s.status = status;
        s.pid = pid;
        self.services.set(i, s);
    }

    /// Records the intent to start service `i`: stopped becomes starting.
    pub fn begin_start(&mut self, i: usize)
        requires
            old(self).wf(),
            i < old(self).services@.len(),
            old(self).services@[i as int].status == Status::Stopped,
        ensures
            final(self).wf(),
            steps_allowed(old(self).services@, final(self).services@),
            final(self).services@[i as int].status == Status::Starting,
            final(self).services@[i as int].pid.is_none(),
            forall|j: int|
                0 <= j < old(self).services@.len() && j != i ==> final(self).services@[j]
                    == old(self).services@[j],
    {
        self.set_state(i, Status::Starting, None);
        proof {
            assert(steps_allowed(old(self).services@, self.services@));
        }
    }

    /// Whether every dependency of service `i` is a service that runs.
    pub fn dependencies_running(&self, i: usize) -> (r: bool)
        requires
            self.wf(),
            i < self.services@.len(),
        ensures
            r == (forall|k: int|
                0 <= k < dep_ids(self.services@[i as int]).len() ==> running_id(
                    self.services@,
                    #[trigger] dep_ids(self.services@[i as int])[k],
                )),
    {
        let deps = &self.services[i].dependencies;
        let mut k: usize = 0;
        while k < deps.len()
            invariant
                self.wf(),
                i < self.services@.len(),
                deps == self.services@[i as int].dependencies,
                k <= deps@.len(),
                forall|m: int|
                    0 <= m < k ==> running_id(
                        self.services@,
                        #[trigger] dep_ids(self.services@[i as int])[m],
                    ),
            decreases deps@.len() - k,
        {
            assert(dep_ids(self.services@[i as int])[k as int] == deps@[k as int]@);
            match self.find(deps[k].as_str()) {
                None => {
                    proof {
                        if running_id(self.services@, deps@[k as int]@) {
                            let jj = choose|jj: int|
                                0 <= jj < self.services@.len() && #[trigger] self.services@[jj].id@
                                    == deps@[k as int]@ && self.services@[jj].status
                                    == Status::Running;
                        }
                    }
                    return false;
                },
                Some(j) => {
                    if self.services[j].status != Status::Running {
                        proof {
                            if running_id(self.services@, deps@[k as int]@) {
                                let jj = choose|jj: int|
                                    0 <= jj < self.services@.len() && #[trigger] self.services@[jj].id@
                                        == deps@[k as int]@ && self.services@[jj].status
                                        == Status::Running;
                                if jj != j as int {
                                    if jj < j as int {
                                        assert(self.services@[jj].id@ != self.services@[j as int].id@);
                                    } else {
                                        assert(self.services@[j as int].id@ != self.services@[jj].id@);
                                    }
                                }
                            }
                        }
                        return false;
                    }
                },
            }
            k = k + 1;
        }
        true
    }

    /// Records the pid of the child spawned for service `i`.
    pub fn record_spawn(&mut self, i: usize, pid: i32)
        requires
            old(self).wf(),
            i < old(self).services@.len(),
            old(self).services@[i as int].status == Status::Starting,
        ensures
            final(self).wf(),
            steps_allowed(old(self).services@, final(self).services@),
            final(self).services@[i as int].status == Status::Starting,
            final(self).services@[i as int].pid == Some(pid),
            forall|j: int|
                0 <= j < old(self).services@.len() && j != i ==> final(self).services@[j]
                    == old(self).services@[j],
    {
        self.set_state(i, Status::Starting, Some(pid));
        proof {
            assert(steps_allowed(old(self).services@, self.services@));
        }
    }

    /// Applies a ready signal from `origin`: each starting service with that
    /// pid now runs; every other service is left as it was. Tells whether a
    /// service was promoted.
    pub fn apply_ready(&mut self, origin: i32) -> (r: bool)
        requires
            old(self).wf(),
        ensures
            final(self).wf(),
            ready_applied(old(self).services@, final(self).services@, origin),
            steps_allowed(old(self).services@, final(self).services@),
            r == exists|i: int|
                0 <= i < old(self).services@.len() && promoted(#[trigger] old(self).services@[i], origin),
    {
        let ghost start = self.services@;
        let mut found = false;
        let mut i: usize = 0;
        while i < self.services.len()
            invariant
                self.services@.len() == start.len(),
                i <= start.len(),
                unique_ids(start),
                forall|j: int| 0 <= j < start.len() ==> pid_consistent(#[trigger] start[j]),
                forall|j: int|
                    0 <= j < i ==> {
                        &&& same_but_state(start[j], #[trigger] self.services@[j])
                        &&& self.services@[j].pid == start[j].pid
                        &&& self.services@[j].status == if promoted(start[j], origin) {
                            Status::Running
                        } else {
                            start[j].status
                        }
                    },
                forall|j: int| i <= j < start.len() ==> #[trigger] self.services@[j] == start[j],
                found == exists|j: int| 0 <= j < i && promoted(#[trigger] start[j], origin),
            decreases start.len() - i,
        {
            if self.services[i].status == Status::Starting && self.services[i].pid == Some(origin) {
                let p = self.services[i].pid;
                self.set_state(i, Status::Running, p);
                found = true;
            }
            proof {
                if !promoted(start[i as int], origin) {
                    assert(forall|j: int| 0 <= j < i + 1 && promoted(#[trigger] start[j], origin) ==> j < i);
                }
            }
            i = i + 1;
        }
        proof {
            assert forall|a: int, b: int| 0 <= a < b < self.services@.len() implies self.services@[a].id@
                != self.services@[b].id@ by {
                assert(same_but_state(start[a], self.services@[a]));
                assert(same_but_state(start[b], self.services@[b]));
            }
            assert forall|a: int| 0 <= a < self.services@.len() implies pid_consistent(
                #[trigger] self.services@[a],
            ) by {
                assert(same_but_state(start[a], self.services@[a]));
                assert(pid_consistent(start[a]));
            }
        }
        found
    }

    /// Marks the running service `id` as stopping and gives the pid to send
    /// the termination signal to.
    pub fn begin_stop(&mut self, id: &str) -> (r: Result<i32, StopError>)
        requires
            old(self).wf(),
        ensures
            final(self).wf(),
            steps_allowed(old(self).services@, final(self).services@),
            match r {
                Ok(pid) => exists|i: int|
                    0 <= i < old(self).services@.len() && #[trigger] old(self).services@[i].id@ == id@
                        && old(self).services@[i].status == Status::Running
                        && old(self).services@[i].pid == Some(pid)
                        && final(self).services@[i].status == Status::Stopping
                        && final(self).services@[i].pid == Some(pid)
                        && forall|j: int|
                        0 <= j < old(self).services@.len() && j != i ==> final(self).services@[j]
                            == old(self).services@[j],
                Err(StopError::UnknownService) => {
                    &&& final(self).services@ == old(self).services@
                    &&& forall|i: int|
                        0 <= i < old(self).services@.len() ==> old(self).services@[i].id@ != id@
                },
                Err(StopError::NotRunning) => {
                    &&& final(self).services@ == old(self).services@
                    &&& exists|i: int|
                        0 <= i < old(self).services@.len() && #[trigger] old(self).services@[i].id@
                            == id@ && old(self).services@[i].status != Status::Running
                },
            },
    {
        match self.find(id) {
            None => Err(StopError::UnknownService),
            Some(i) => {
                if self.services[i].status != Status::Running {
                    return Err(StopError::NotRunning);
                }
                match self.services[i].pid {
                    None => Err(StopError::NotRunning),
                    Some(pid) => {
                        self.set_state(i, Status::Stopping, Some(pid));
                        proof {
                            assert(steps_allowed(old(self).services@, self.services@));
                            assert forall|a: int, b: int|
                                0 <= a < b < self.services@.len() implies self.services@[a].id@
                                != self.services@[b].id@ by {
                                assert(same_but_state(old(self).services@[a], self.services@[a]));
                                assert(same_but_state(old(self).services@[b], self.services@[b]));
                            }
                            assert(pid_consistent(self.services@[i as int]));
                        }
                        Ok(pid)
                    },
                }
            },
        }
    }

    /// The child of service `i` has exited: a stopping service is now
    /// stopped with no pid; any other exit is fatal and changes nothing.
    pub fn child_exited(&mut self, i: usize) -> (r: ExitOutcome)
        requires
            old(self).wf(),
            i < old(self).services@.len(),
        ensures
            final(self).wf(),
            steps_allowed(old(self).services@, final(self).services@),
            old(self).services@[i as int].status == Status::Stopping ==> {
                &&& r == ExitOutcome::Stopped
                &&& final(self).services@[i as int].status == Status::Stopped
                &&& final(self).services@[i as int].pid.is_none()
                &&& forall|j: int|
                    0 <= j < old(self).services@.len() && j != i ==> final(self).services@[j]
                        == old(self).services@[j]
            },
            old(self).services@[i as int].status != Status::Stopping ==> {
                &&& r == ExitOutcome::Fatal
                &&& final(self).services@ == old(self).services@
            },
    {
        if self.services[i].status == Status::Stopping {
            self.set_state(i, Status::Stopped, None);
            proof {
                assert(steps_allowed(old(self).services@, self.services@));
                assert forall|a: int, b: int| 0 <= a < b < self.services@.len() implies self.services@[a].id@
                    != self.services@[b].id@ by {
                    assert(same_but_state(old(self).services@[a], self.services@[a]));
                    assert(same_but_state(old(self).services@[b], self.services@[b]));
                }
            }
            ExitOutcome::Stopped
        } else {
            proof {
                assert(steps_allowed(old(self).services@, self.services@));
            }
            ExitOutcome::Fatal
        }
    }

    /// The status of service `i`.
    pub fn status_of(&self, i: usize) -> (r: Status)
        requires
            i < self.services@.len(),
        ensures
            r == self.services@[i as int].status,
    {
        self.services[i].status
    }
}

/// A service that one ready signal promoted runs, and the same signal again
/// changes nothing.
pub proof fn lemma_ready_once(a: Seq<Service>, b: Seq<Service>, c: Seq<Service>, origin: i32)
    requires
        ready_applied(a, b, origin),
        ready_applied(b, c, origin),
    ensures
        forall|i: int| 0 <= i < a.len() && promoted(a[i], origin) ==> #[trigger] b[i].status
            == Status::Running,
        forall|i: int|
            0 <= i < b.len() ==> #[trigger] c[i].status == b[i].status && c[i].pid == b[i].pid,
{
    assert forall|i: int| 0 <= i < b.len() implies #[trigger] c[i].status == b[i].status
        && c[i].pid == b[i].pid by {
        assert(same_but_state(a[i], b[i]));
        assert(same_but_state(b[i], c[i]));
    }
}

} // verus!
