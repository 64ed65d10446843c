use vstd::prelude::*;

verus! {

/// Liveness state of a supervised service.
#[derive(Clone, Copy, Debug, PartialEq, Eq, Structural)]
pub enum Status {
    Stopped,
    Starting,
    Running,
    Stopping,
}

impl Default for Status {
    fn default() -> (r: Self)
        ensures
            r == Status::Stopped,
    {
        Status::Stopped
    }
}

/// A standard stream that a service may have forwarded.
#[derive(Clone, Copy, Debug, PartialEq, Eq, Structural)]
pub enum IoOption {
    Out,
    In,
    Error,
}

/// Characters equal one for one.
pub fn str_equal(a: &str, b: &str) -> (r: bool)
    ensures
        r == (a@ == b@),
{
    let n = a.unicode_len();
    if n != b.unicode_len() {
        return false;
    }
    let mut i: usize = 0;
    while i < n
        invariant
            n == a@.len(),
            n == b@.len(),
            i <= n,
            a@.subrange(0, i as int) == b@.subrange(0, i as int),
        decreases n - i,
    {
        if a.get_char(i) != b.get_char(i) {
            return false;
        }
        assert(a@.subrange(0, i + 1) =~= a@.subrange(0, i as int).push(a@[i as int]));
        assert(b@.subrange(0, i + 1) =~= b@.subrange(0, i as int).push(b@[i as int]));
        i = i + 1;
    }
    assert(a@ =~= a@.subrange(0, n as int));
    assert(b@ =~= b@.subrange(0, n as int));
    true
}

/// The stream option that a configuration word names.
pub open spec fn io_option_of(s: Seq<char>) -> Option<IoOption> {
    if s == "out"@ {
        Some(IoOption::Out)
    } else if s == "in"@ {
        Some(IoOption::In)
    } else if s == "err"@ {
        Some(IoOption::Error)
    } else {
        None
    }
}

impl IoOption {
    /// Reads a configuration word: `out`, `in` or `err`.
    pub fn parse(s: &str) -> (r: Option<IoOption>)
        ensures
            r == io_option_of(s@),
    {
        proof {
            reveal_strlit("out");
            reveal_strlit("in");
            reveal_strlit("err");
        }
        if str_equal(s, "out") {
            Some(IoOption::Out)
        } else if str_equal(s, "in") {
            Some(IoOption::In)
        } else if str_equal(s, "err") {
            Some(IoOption::Error)
        } else {
            None
        }
    }
}

/// An unparsed command line.
#[derive(Clone, Debug)]
pub struct Exec(pub String);

/// A supervised unit: identity, command, dependencies and lifecycle state.
#[derive(Clone, Debug)]
pub struct Service {
    pub name: String,
    pub id: String,
    pub exec_line: Exec,
    pub enabled: bool,
    pub dependencies: Vec<String>,
    pub io: Vec<IoOption>,
    pub status: Status,
    pub pid: Option<i32>,
}

/// The dependency ids of a service, as character sequences.
pub open spec fn dep_ids(s: Service) -> Seq<Seq<char>> {
    s.dependencies@.map_values(|d: String| d@)
}

/// `b` holds the same values as `a`, field by field.
pub open spec fn same_service(a: Service, b: Service) -> bool {
    &&& b.name@ == a.name@
    &&& b.id@ == a.id@
    &&& b.exec_line.0@ == a.exec_line.0@
    &&& b.enabled == a.enabled
    &&& dep_ids(b) == dep_ids(a)
    &&& b.io@ == a.io@
    &&& b.status == a.status
    &&& b.pid == a.pid
}

/// The lifecycle state is consistent: a stopped service has no process,
/// a running or stopping one has.
pub open spec fn pid_consistent(s: Service) -> bool {
    &&& s.status == Status::Stopped ==> s.pid.is_none()
    &&& (s.status == Status::Running || s.status == Status::Stopping) ==> s.pid.is_some()
}

impl Service {
    /// A service as configuration describes it: enabled by default,
    /// stopped, with no process.
    pub fn new(id: String, name: String, exec: Exec) -> (r: Service)
        ensures
            r.id@ == id@,
            r.name@ == name@,
            r.exec_line.0@ == exec.0@,
            r.enabled,
            r.dependencies@.len() == 0,
            r.io@.len() == 0,
            r.status == Status::Stopped,
            r.pid.is_none(),
    {
        Service {
            name,
            id,
            exec_line: exec,
            enabled: true,
            dependencies: Vec::new(),
            io: Vec::new(),
            status: Status::Stopped,
            pid: None,
        }
    }

    /// A field-by-field copy.
    pub fn duplicate(&self) -> (r: Service)
        ensures
            same_service(*self, r),
    {
        let mut deps: Vec<String> = Vec::new();
        let mut i: usize = 0;
        while i < self.dependencies.len()
            invariant
                i <= self.dependencies@.len(),
                deps@.len() == i,
                forall|k: int| 0 <= k < i ==> #[trigger] deps@[k]@ == self.dependencies@[k]@,
            decreases self.dependencies@.len() - i,
        {
            deps.push(self.dependencies[i].clone());
            i = i + 1;
        }
        assert(dep_ids(*self) =~= deps@.map_values(|d: String| d@));
        let mut io: Vec<IoOption> = Vec::new();
        let mut j: usize = 0;
        while j < self.io.len()
            invariant
                j <= self.io@.len(),
                io@ == self.io@.subrange(0, j as int),
            decreases self.io@.len() - j,
        {
            io.push(self.io[j]);
            assert(self.io@.subrange(0, j + 1) =~= self.io@.subrange(0, j as int).push(self.io@[j as int]));
            j = j + 1;
        }
        assert(io@ =~= self.io@);
        Service {
            name: self.name.clone(),
            id: self.id.clone(),
            exec_line: Exec(self.exec_line.0.clone()),
            enabled: self.enabled,
            dependencies: deps,
            io,
            status: self.status,
            pid: self.pid,
        }
    }

    /// Services are equal when their ids are.
    pub fn same_id(&self, other: &Service) -> (r: bool)
        ensures
            r == (self.id@ == other.id@),
    {
        self.id == other.id
    }

    /// A service compares to its own id.
    pub fn has_id(&self, id: &str) -> (r: bool)
        ensures
            r == (self.id@ == id@),
    {
        str_equal(self.id.as_str(), id)
    }

    /// The label used in diagnostics.
    pub fn display_name(&self) -> (r: String)
        ensures
            r@ == self.name@,
    {
        self.name.clone()
    }
}

/// Commands of the supervisor's IPC contract.
#[derive(Clone, Copy, Debug, PartialEq, Eq, Structural)]
pub enum Command {
    PowerOff,
    Reboot,
    /// The process id of the service that is ready.
    ServiceReady(u32),
}

/// The configuration as read: services with their ids as keys.
#[derive(Clone, Debug)]
pub struct PartialConfig {
    pub services: Vec<(String, Service)>,
}

} // verus!
