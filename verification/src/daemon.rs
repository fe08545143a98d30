//! The privileged daemon's record table and its start/stop decisions.
//!
//! The daemon is the source of truth for the tunnels it manages: one record
//! per tunnel id, holding the interface name, the engine's control-socket
//! path, and the configuration the tunnel was started with. A start request
//! for an id already on record, or for an interface that already exists, is
//! answered with an error before anything is spawned.

use vstd::prelude::*;

use crate::ipc::TunnelConfigIpc;
use crate::supervisor::StartGate;

verus! {

/// The installation state of the daemon service, as reported to callers.
#[derive(Clone, Debug)]
pub struct DaemonStatus {
    pub installed: bool,
    pub running: bool,
    pub enabled: bool,
    pub version: Option<String>,
}

/// One tunnel the daemon owns. The spawned engine child process itself
/// lives with the daemon's process table; this record carries everything
/// the decisions and status queries need.
pub struct DaemonTunnelRecord {
    pub tunnel_id: String,
    pub interface_name: String,
    pub socket_path: String,
    pub config: TunnelConfigIpc,
}

/// The daemon's record table.
pub struct DaemonState {
    pub records: Vec<DaemonTunnelRecord>,
}

impl DaemonState {
    /// At most one record per tunnel id.
    pub open spec fn wf(self) -> bool {
        forall|i: int, j: int|
            0 <= i < j < self.records@.len() ==> #[trigger] self.records@[i].tunnel_id@
                != #[trigger] self.records@[j].tunnel_id@
    }

    pub open spec fn records_seq(self) -> Seq<DaemonTunnelRecord> {
        self.records@
    }

    pub open spec fn contains_id(self, id: Seq<char>) -> bool {
        exists|i: int|
            0 <= i < self.records@.len() && #[trigger] self.records@[i].tunnel_id@ == id
    }

    /// The decision rule for a `start_tunnel` request.
    pub open spec fn start_gate_spec(self, id: Seq<char>, interface_exists: bool) -> StartGate {
        if self.contains_id(id) {
            StartGate::AlreadyRunning
        } else if interface_exists {
            StartGate::InterfaceConflict
        } else {
            StartGate::Clear
        }
    }

    pub fn new() -> (r: DaemonState)
        ensures
            r.wf(),
            r.records_seq().len() == 0,
    {
        DaemonState { records: Vec::new() }
    }

    fn find(&self, id: &str) -> (r: Option<usize>)
        ensures
            r is Some ==> r.unwrap() < self.records@.len() && self.records@[
                r.unwrap() as int
            ].tunnel_id@ == id@,
            r is None ==> !self.contains_id(id@),
    {
        let n = self.records.len();
        let mut i: usize = 0;
        while i < n
            invariant
                0 <= i <= n,
                n == self.records@.len(),
                forall|j: int| 0 <= j < i ==> #[trigger] self.records@[j].tunnel_id@ != id@,
            decreases n - i,
        {
            if crate::text::str_eq(self.records[i].tunnel_id.as_str(), id) {
                return Some(i);
            }
            i += 1;
        }
        None
    }

    /// Gates a `start_tunnel` request: the daemon spawns an engine only on
    /// `Clear`, and answers the other two cases with an error.
    pub fn check_start(&self, id: &str, interface_exists: bool) -> (r: StartGate)
        ensures
            r == self.start_gate_spec(id@, interface_exists),
    {
        if self.find(id).is_some() {
            StartGate::AlreadyRunning
        } else if interface_exists {
            StartGate::InterfaceConflict
        } else {
            StartGate::Clear
        }
    }

    /// Records a tunnel whose startup sequence completed.
    pub fn record_started(&mut self, rec: DaemonTunnelRecord)
        requires
            old(self).wf(),
            !old(self).contains_id(rec.tunnel_id@),
        ensures
            final(self).wf(),
            final(self).records_seq() == old(self).records_seq().push(rec),
            forall|id: Seq<char>|
                #[trigger] final(self).contains_id(id) <==> (old(self).contains_id(id) || id
                    == rec.tunnel_id@),
    {
        self.records.push(rec);
        proof {
            assert forall|id: Seq<char>|
                #[trigger] self.contains_id(id) <==> (old(self).contains_id(id) || id
                    == rec.tunnel_id@) by {
                let n = old(self).records@.len() as int;
                if old(self).contains_id(id) {
                    let i = choose|i: int|
                        0 <= i < old(self).records@.len() && #[trigger] old(
                            self,
                        ).records@[i].tunnel_id@ == id;
                    assert(self.records@[i].tunnel_id@ == id);
                }
                if id == rec.tunnel_id@ {
                    assert(self.records@[n].tunnel_id@ == id);
                }
                if self.contains_id(id) {
                    let i = choose|i: int|
                        0 <= i < self.records@.len() && #[trigger] self.records@[i].tunnel_id@
                            == id;
                    if i < n {
                        assert(old(self).records@[i].tunnel_id@ == id);
                    }
                }
            }
        }
    }

    /// Removes and returns the record for `id`: the `stop_tunnel` path,
    /// which then kills the engine and cleans up what the record names. An
    /// unknown id is a "not running" error on the caller's side.
    pub fn remove_record(&mut self, id: &str) -> (r: Option<DaemonTunnelRecord>)
        requires
            old(self).wf(),
        ensures
            final(self).wf(),
            r is Some <==> old(self).contains_id(id@),
            r is None ==> final(self).records_seq() == old(self).records_seq(),
            r is Some ==> r.unwrap().tunnel_id@ == id@ && !final(self).contains_id(id@),
            r is Some ==> exists|k: int|
                0 <= k < old(self).records_seq().len() && r.unwrap() == old(self).records_seq()[k]
                    && final(self).records_seq() == #[trigger] old(self).records_seq().remove(k),
    {
        match self.find(id) {
            None => None,
            Some(k) => {
                let rec = self.records.remove(k);
                proof {
                    let oldseq = old(self).records@;
                    assert forall|i: int, j: int|
                        0 <= i < j < self.records@.len() implies #[trigger] self.records@[
                        i
                    ].tunnel_id@ != #[trigger] self.records@[j].tunnel_id@ by {
                        let oi = if i < k {
                            i
                        } else {
                            i + 1
                        };
                        let oj = if j < k {
                            j
                        } else {
                            j + 1
                        };
                        assert(self.records@[i] == oldseq[oi]);
                        assert(self.records@[j] == oldseq[oj]);
                    }
                    assert(!self.contains_id(id@)) by {
                        if self.contains_id(id@) {
                            let i = choose|i: int|
                                0 <= i < self.records@.len() && #[trigger] self.records@[
                                    i
                                ].tunnel_id@ == id@;
                            let oi = if i < k as int {
                                i
                            } else {
                                i + 1
                            };
                            assert(self.records@[i] == oldseq[oi]);
                            assert(oldseq[oi].tunnel_id@ == id@);
                            assert(oldseq[k as int].tunnel_id@ == id@);
                        }
                    }
                    assert(self.records@ == old(self).records_seq().remove(k as int));
                    assert(rec == old(self).records_seq()[k as int]);
                }
                Some(rec)
            },
        }
    }

    /// The control-socket path of a recorded tunnel, for status queries.
    pub fn socket_path_of(&self, id: &str) -> (r: Option<String>)
        ensures
            r is Some <==> self.contains_id(id@),
            r is Some ==> exists|i: int|
                0 <= i < self.records_seq().len() && #[trigger] self.records_seq()[i].tunnel_id@
                    == id@ && r.unwrap()@ == self.records_seq()[i].socket_path@,
    {
        match self.find(id) {
            None => None,
            Some(i) => {
                let p = self.records[i].socket_path.clone();
                proof {
                    assert(self.records_seq()[i as int].tunnel_id@ == id@);
                }
                Some(p)
            },
        }
    }

    /// The ids of every tunnel on record, in table order.
    pub fn tunnel_ids(&self) -> (r: Vec<String>)
        ensures
            r@.len() == self.records_seq().len(),
            forall|i: int|
                0 <= i < r@.len() ==> r@[i]@ == self.records_seq()[i].tunnel_id@,
    {
        let n = self.records.len();
        let mut out: Vec<String> = Vec::new();
        let mut i: usize = 0;
        while i < n
            invariant
                0 <= i <= n,
                n == self.records@.len(),
                out@.len() == i,
                forall|j: int| 0 <= j < i ==> out@[j]@ == self.records@[j].tunnel_id@,
            decreases n - i,
        {
            out.push(self.records[i].tunnel_id.clone());
            i += 1;
        }
        out
    }
}

/// The engine's control-socket path: the configured directory (or the
/// platform default) joined with the interface name and the socket suffix.
pub fn engine_socket_path(socket_dir: &Option<String>, interface: &str) -> (r: String)
    ensures
        r@ == (match *socket_dir {
            Option::Some(d) => d@,
            Option::None => "/var/run/wireguard"@,
        }) + "/"@ + interface@ + ".sock"@,
{
    let mut out: String = match socket_dir {
        Some(d) => d.clone(),
        None => "/var/run/wireguard".to_owned(),
    };
    out.append("/");
    out.append(interface);
    out.append(".sock");
    out
}

/// Law: when the daemon already holds a record under the requested id,
/// the start gate answers `AlreadyRunning` and never `Clear`, so no second
/// engine is ever spawned for that id.
pub proof fn lemma_duplicate_start_refused(s: DaemonState, id: Seq<char>, interface_exists: bool)
    requires
        s.contains_id(id),
    ensures
        s.start_gate_spec(id, interface_exists) == StartGate::AlreadyRunning,
{
}

} // verus!
