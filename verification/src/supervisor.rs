//! The supervisor's authoritative table of running tunnels, and the
//! decisions it takes on start and stop requests.
//!
//! The table is keyed by tunnel id with at most one entry per id. Mutation
//! happens in short critical sections on the caller's side; this module
//! holds the table itself and the pure decision rules: a start against a
//! running id or an existing interface is refused before any engine is
//! spawned, and a stop for an unknown id either triggers staleness recovery
//! (when the derived interface still exists at the OS level) or reports
//! that the tunnel is not running.

use vstd::prelude::*;

use crate::uapi::InterfaceConfig;

verus! {

/// The opaque engine handle: a closed set of variants behind one stop
/// capability, so the table and its discipline stay platform-agnostic.
#[derive(Clone, Debug)]
pub enum EngineHandle {
    /// The engine process is owned by the privileged daemon; all control
    /// traffic for the tunnel goes through IPC.
    DaemonManaged,
    /// An engine started through one-shot privilege elevation, identified
    /// by the process id the elevated script reported.
    Privileged(i32),
    /// A vendor-service installation, stopped through the vendor tool.
    VendorService { service_name: String, interface_name: String, config_path: String },
}

/// One running tunnel: id, derived interface name, the engine handle, and
/// the configuration retained for the endpoint-refresh loop (absent for
/// strategies without a pushable control channel).
pub struct RunningTunnel {
    pub tunnel_id: String,
    pub interface_name: String,
    pub handle: EngineHandle,
    pub config: Option<InterfaceConfig>,
}

/// What a start request runs into.
#[derive(Debug, PartialEq, Eq, Structural)]
pub enum StartGate {
    /// The id is already in the table; nothing is started.
    AlreadyRunning,
    /// The id is free but the derived interface already exists at the OS
    /// level: a stale engine from an earlier run. Nothing is started.
    InterfaceConflict,
    /// The start may proceed.
    Clear,
}

/// What a stop request should do.
#[derive(Debug, PartialEq, Eq, Structural)]
pub enum StopPlan {
    /// The tunnel is in the table: kill its engine and remove the entry.
    KillEngine,
    /// The id is unknown but its interface exists: run staleness recovery.
    StaleRecovery,
    /// Neither a table entry nor an interface: report "not running" and
    /// touch nothing.
    NotRunning,
}

/// The authoritative in-memory table of running tunnels.
pub struct Supervisor {
    pub tunnels: Vec<RunningTunnel>,
}

impl Supervisor {
    /// At most one entry per tunnel id.
    pub open spec fn wf(self) -> bool {
        forall|i: int, j: int|
            0 <= i < j < self.tunnels@.len() ==> #[trigger] self.tunnels@[i].tunnel_id@
                != #[trigger] self.tunnels@[j].tunnel_id@
    }

    pub open spec fn tunnels_seq(self) -> Seq<RunningTunnel> {
        self.tunnels@
    }

    pub open spec fn contains_id(self, id: Seq<char>) -> bool {
        exists|i: int|
            0 <= i < self.tunnels@.len() && #[trigger] self.tunnels@[i].tunnel_id@ == id
    }

    /// The decision rule for a start request.
    pub open spec fn start_gate_spec(self, id: Seq<char>, interface_exists: bool) -> StartGate {
        if self.contains_id(id) {
            StartGate::AlreadyRunning
        } else if interface_exists {
            StartGate::InterfaceConflict
        } else {
            StartGate::Clear
        }
    }

    /// The decision rule for a stop request.
    pub open spec fn stop_plan_spec(self, id: Seq<char>, interface_exists: bool) -> StopPlan {
        if self.contains_id(id) {
            StopPlan::KillEngine
        } else if interface_exists {
            StopPlan::StaleRecovery
        } else {
            StopPlan::NotRunning
        }
    }

    pub fn new() -> (r: Supervisor)
        ensures
            r.wf(),
            r.tunnels_seq().len() == 0,
    {
        Supervisor { tunnels: Vec::new() }
    }

    fn find(&self, id: &str) -> (r: Option<usize>)
        ensures
            r is Some ==> r.unwrap() < self.tunnels@.len() && self.tunnels@[
                r.unwrap() as int
            ].tunnel_id@ == id@,
            r is None ==> !self.contains_id(id@),
    {
        let n = self.tunnels.len();
        let mut i: usize = 0;
        while i < n
            invariant
                0 <= i <= n,
                n == self.tunnels@.len(),
                forall|j: int| 0 <= j < i ==> #[trigger] self.tunnels@[j].tunnel_id@ != id@,
            decreases n - i,
        {
            if crate::text::str_eq(self.tunnels[i].tunnel_id.as_str(), id) {
                return Some(i);
            }
            i += 1;
        }
        None
    }

    /// Whether a tunnel with this id is currently tracked as running.
    pub fn is_running(&self, id: &str) -> (r: bool)
        ensures
            r == self.contains_id(id@),
    {
        self.find(id).is_some()
    }

    /// Gates a start request: nothing may be spawned unless the answer is
    /// `Clear`.
    pub fn check_start(&self, id: &str, interface_exists: bool) -> (r: StartGate)
        ensures
            r == self.start_gate_spec(id@, interface_exists),
    {
        if self.find(id).is_some() {
            StartGate::AlreadyRunning
        } else if interface_exists {
            StartGate::InterfaceConflict
        } else {
            StartGate::Clear
        }
    }

    /// Plans a stop request.
    pub fn decide_stop(&self, id: &str, interface_exists: bool) -> (r: StopPlan)
        ensures
            r == self.stop_plan_spec(id@, interface_exists),
    {
        if self.find(id).is_some() {
            StopPlan::KillEngine
        } else if interface_exists {
            StopPlan::StaleRecovery
        } else {
            StopPlan::NotRunning
        }
    }

    /// Records a tunnel that started successfully. The caller has already
    /// gated the start, so the id is new.
    pub fn register_started(&mut self, rt: RunningTunnel)
        requires
            old(self).wf(),
            !old(self).contains_id(rt.tunnel_id@),
        ensures
            final(self).wf(),
            final(self).tunnels_seq() == old(self).tunnels_seq().push(rt),
            forall|id: Seq<char>|
                #[trigger] final(self).contains_id(id) <==> (old(self).contains_id(id) || id
                    == rt.tunnel_id@),
    {
        self.tunnels.push(rt);
        proof {
            assert forall|id: Seq<char>|
                #[trigger] self.contains_id(id) <==> (old(self).contains_id(id) || id
                    == rt.tunnel_id@) by {
                let n = old(self).tunnels@.len() as int;
                if old(self).contains_id(id) {
                    let i = choose|i: int|
                        0 <= i < old(self).tunnels@.len() && #[trigger] old(
                            self,
                        ).tunnels@[i].tunnel_id@ == id;
                    assert(self.tunnels@[i].tunnel_id@ == id);
                }
                if id == rt.tunnel_id@ {
                    assert(self.tunnels@[n].tunnel_id@ == id);
                }
                if self.contains_id(id) {
                    let i = choose|i: int|
                        0 <= i < self.tunnels@.len() && #[trigger] self.tunnels@[i].tunnel_id@
                            == id;
                    if i < n {
                        assert(old(self).tunnels@[i].tunnel_id@ == id);
                    }
                }
            }
        }
    }

    /// Removes and returns the entry for `id`, if any. The stop path calls
    /// this first, so the refresh loop observes the disappearance.
    pub fn remove_tunnel(&mut self, id: &str) -> (r: Option<RunningTunnel>)
        requires
            old(self).wf(),
        ensures
            final(self).wf(),
            r is Some <==> old(self).contains_id(id@),
            r is None ==> final(self).tunnels_seq() == old(self).tunnels_seq(),
            r is Some ==> r.unwrap().tunnel_id@ == id@ && !final(self).contains_id(id@),
            r is Some ==> exists|k: int|
                0 <= k < old(self).tunnels_seq().len() && r.unwrap() == old(self).tunnels_seq()[k]
                    && final(self).tunnels_seq() == #[trigger] old(self).tunnels_seq().remove(k),
    {
        match self.find(id) {
            None => None,
            Some(k) => {
                let rt = self.tunnels.remove(k);
                proof {
                    let oldseq = old(self).tunnels@;
                    assert forall|i: int, j: int|
                        0 <= i < j < self.tunnels@.len() implies #[trigger] self.tunnels@[
                        i
                    ].tunnel_id@ != #[trigger] self.tunnels@[j].tunnel_id@ by {
                        let oi = if i < k {
                            i
                        } else {
                            i + 1
                        };
                        let oj = if j < k {
                            j
                        } else {
                            j + 1
                        };
                        assert(self.tunnels@[i] == oldseq[oi]);
                        assert(self.tunnels@[j] == oldseq[oj]);
                    }
                    assert(!self.contains_id(id@)) by {
                        if self.contains_id(id@) {
                            let i = choose|i: int|
                                0 <= i < self.tunnels@.len() && #[trigger] self.tunnels@[
                                    i
                                ].tunnel_id@ == id@;
                            let oi = if i < k as int {
                                i
                            } else {
                                i + 1
                            };
                            assert(self.tunnels@[i] == oldseq[oi]);
                            assert(oldseq[oi].tunnel_id@ == id@);
                            assert(oldseq[k as int].tunnel_id@ == id@);
                        }
                    }
                    assert(self.tunnels@ == old(self).tunnels_seq().remove(k as int));
                    assert(rt == old(self).tunnels_seq()[k as int]);
                }
                Some(rt)
            },
        }
    }

    /// The ids of all running tunnels, in table order.
    pub fn running_ids(&self) -> (r: Vec<String>)
        ensures
            r@.len() == self.tunnels_seq().len(),
            forall|i: int|
                0 <= i < r@.len() ==> r@[i]@ == self.tunnels_seq()[i].tunnel_id@,
    {
        let n = self.tunnels.len();
        let mut out: Vec<String> = Vec::new();
        let mut i: usize = 0;
        while i < n
            invariant
                0 <= i <= n,
                n == self.tunnels@.len(),
                out@.len() == i,
                forall|j: int| 0 <= j < i ==> out@[j]@ == self.tunnels@[j].tunnel_id@,
            decreases n - i,
        {
            out.push(self.tunnels[i].tunnel_id.clone());
            i += 1;
        }
        out
    }

    /// The entry for `id`, for status queries.
    pub fn get_tunnel(&self, id: &str) -> (r: Option<&RunningTunnel>)
        ensures
            r is Some <==> self.contains_id(id@),
            r is Some ==> r.unwrap().tunnel_id@ == id@ && exists|i: int|
                0 <= i < self.tunnels_seq().len() && *r.unwrap() == #[trigger] self.tunnels_seq()[
                    i
                ],
    {
        match self.find(id) {
            None => None,
            Some(i) => {
                let rt = &self.tunnels[i];
                proof {
                    assert(*rt == self.tunnels_seq()[i as int]);
                }
                Some(rt)
            },
        }
    }
}

// ---------------------------------------------------------------------------
// Staleness recovery
// ---------------------------------------------------------------------------

/// Recovery could not remove the stale interface.
#[derive(Debug, PartialEq, Eq, Structural)]
pub enum StaleError {
    /// The interface still exists after the engine was force-terminated;
    /// the failure is surfaced, never silently ignored.
    InterfaceStillPresent,
}

/// The verdict of a staleness-recovery attempt, taken after the stale
/// engine was force-terminated: recovery succeeds exactly when the
/// interface is gone afterwards.
pub fn staleness_outcome(interface_still_exists: bool) -> (r: Result<(), StaleError>)
    ensures
        r is Ok <==> !interface_still_exists,
        r is Err ==> r->Err_0 == StaleError::InterfaceStillPresent,
{
    if interface_still_exists {
        Err(StaleError::InterfaceStillPresent)
    } else {
        Ok(())
    }
}

// ---------------------------------------------------------------------------
// Laws
// ---------------------------------------------------------------------------

/// Law: a start request for a tunnel whose derived interface already exists
/// at the OS level is never waved through — whatever the table holds, the
/// gate is `AlreadyRunning` or `InterfaceConflict`, and the caller spawns an
/// engine only on `Clear`.
pub proof fn lemma_conflict_short_circuit(s: Supervisor, id: Seq<char>)
    ensures
        s.start_gate_spec(id, true) != StartGate::Clear,
{
}

/// Law: a stop request for an id that is not in the table, while its
/// interface does exist, always plans staleness recovery — and recovery
/// itself reports success only once the interface is absent.
pub proof fn lemma_unknown_stop_with_interface_recovers(s: Supervisor, id: Seq<char>)
    requires
        !s.contains_id(id),
    ensures
        s.stop_plan_spec(id, true) == StopPlan::StaleRecovery,
{
}

/// Law: a stop request for an id with no table entry and no interface plans
/// no action at all: the answer is `NotRunning`, which the caller turns
/// into an error without touching the OS.
pub proof fn lemma_unknown_stop_without_interface_is_error(s: Supervisor, id: Seq<char>)
    requires
        !s.contains_id(id),
    ensures
        s.stop_plan_spec(id, false) == StopPlan::NotRunning,
{
}

} // verus!
