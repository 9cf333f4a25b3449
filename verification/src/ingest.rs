//! Scan-result ingestion: turns what the external scanning service
//! reports into store mutations.  A port scan replaces the machine's
//! whole port list — repeated scans do not merge; a network discovery
//! appends machines with sequential identifiers continuing from the
//! existing count.

use vstd::prelude::*;

use crate::errors::StoreError;
use crate::ops::{lemma_wf_with_ws, with_machine, with_ws};
use crate::store::{
    has_machine, has_ws, machine_at_ok, ws_at_ok, Machine, MachineV, Note, NoteV, Port, PortV,
    Store, WorkspaceV,
};

verus! {

/// One port descriptor as the scanning service reports it: the two
/// trailing fields are optional in the external schema, and only the
/// detail lines feed the note list.
#[derive(Debug, Clone, PartialEq, Eq)]
#[verifier::ext_equal]
pub struct ScanPort {
    pub service: String,
    pub application: String,
    pub protocol: String,
    pub number: u16,
    pub state: String,
    pub data: Option<Vec<String>>,
    pub details: Option<Vec<String>>,
}

/// Mathematical shape of a [`ScanPort`].
#[verifier::ext_equal]
pub ghost struct ScanPortV {
    pub service: Seq<char>,
    pub application: Seq<char>,
    pub protocol: Seq<char>,
    pub number: u16,
    pub state: Seq<char>,
    pub data: Option<Seq<Seq<char>>>,
    pub details: Option<Seq<Seq<char>>>,
}

impl DeepView for ScanPort {
    type V = ScanPortV;

    open spec fn deep_view(&self) -> ScanPortV {
        ScanPortV {
            service: self.service.deep_view(),
            application: self.application.deep_view(),
            protocol: self.protocol.deep_view(),
            number: self.number,
            state: self.state.deep_view(),
            data: self.data.deep_view(),
            details: self.details.deep_view(),
        }
    }
}

/// The note list a fresh scan gives a port: present, non-empty detail
/// lines become a single scan-findings note; anything else is the
/// explicit placeholder.
pub open spec fn notes_of_details(details: Option<Seq<Seq<char>>>) -> Seq<NoteV> {
    match details {
        Some(lines) => if lines.len() > 0 {
            seq![NoteV::ScanFindings(lines)]
        } else {
            seq![NoteV::Empty]
        },
        None => seq![NoteV::Empty],
    }
}

/// The internal port one external descriptor maps to.
pub open spec fn port_of_scan(sp: ScanPortV) -> PortV {
    PortV {
        service: sp.service,
        application: sp.application,
        protocol: sp.protocol,
        number: sp.number,
        state: sp.state,
        notes: notes_of_details(sp.details),
    }
}

/// The internal ports a whole scan response maps to, descriptor by
/// descriptor.
pub open spec fn ports_of_scan(descs: Seq<ScanPortV>) -> Seq<PortV> {
    Seq::new(descs.len(), |i: int| port_of_scan(descs[i]))
}

/// Port numbers are pairwise distinct across the descriptors.
pub open spec fn scan_numbers_unique(descs: Seq<ScanPortV>) -> bool {
    forall|i: int, j: int|
        0 <= i < j < descs.len() ==> descs[i].number != descs[j].number
}

/// `pat` occurs in `s` starting at position `i`.
pub open spec fn occurs_at(s: Seq<char>, pat: Seq<char>, i: int) -> bool {
    0 <= i && i + pat.len() <= s.len() && s.subrange(i, i + pat.len()) == pat
}

/// `pat` occurs somewhere in `s`.
pub open spec fn contains_seq(s: Seq<char>, pat: Seq<char>) -> bool {
    exists|i: int| occurs_at(s, pat, i)
}

/// Substring search by scanning every start position.
pub fn str_contains(s: &str, pat: &str) -> (r: bool)
    ensures
        r == contains_seq(s@, pat@),
{
    let n = s.unicode_len();
    let m = pat.unicode_len();
    if m > n {
        proof {
            assert forall|i: int| !occurs_at(s@, pat@, i) by {}
        }
        return false;
    }
    if m == 0 {
        proof {
            assert(s@.subrange(0, 0) =~= pat@);
            assert(occurs_at(s@, pat@, 0));
        }
        return true;
    }
    let mut i: usize = 0;
    while i <= n - m
        invariant
            1 <= m <= n,
            n == s@.len(),
            m == pat@.len(),
            i <= n - m + 1,
            forall|k: int| 0 <= k < i ==> !occurs_at(s@, pat@, k),
        decreases n - m - i + 1,
    {
        let mut j: usize = 0;
        let mut matched = true;
        while j < m
            invariant
                m <= n,
                n == s@.len(),
                m == pat@.len(),
                i <= n - m,
                j <= m,
                matched ==> forall|k: int| 0 <= k < j ==> s@[i + k] == pat@[k],
                !matched ==> !occurs_at(s@, pat@, i as int),
            decreases m - j,
        {
            if s.get_char(i + j) != pat.get_char(j) {
                proof {
                    if occurs_at(s@, pat@, i as int) {
                        assert(s@.subrange(i as int, i + pat@.len())[j as int] == pat@[j as int]);
                    }
                }
                matched = false;
                j = m;
            } else {
                j += 1;
            }
        }
        if matched {
            proof {
                assert(s@.subrange(i as int, i + pat@.len()) =~= pat@);
                assert(occurs_at(s@, pat@, i as int));
            }
            return true;
        }
        i += 1;
    }
    false
}

/// Clones a list of strings element by element.
pub(crate) fn clone_strings(v: &Vec<String>) -> (r: Vec<String>)
    ensures
        r.deep_view() == v.deep_view(),
{
    let mut r: Vec<String> = Vec::new();
    let mut i: usize = 0;
    while i < v.len()
        invariant
            i <= v@.len(),
            r@.len() == i,
            forall|k: int| 0 <= k < i ==> r.deep_view()[k] == v.deep_view()[k],
        decreases v@.len() - i,
    {
        r.push(v[i].clone());
        proof {
            assert(r.deep_view()[i as int] == v.deep_view()[i as int]);
        }
        i += 1;
    }
    proof {
        assert(r.deep_view() =~= v.deep_view());
    }
    r
}

/// Maps each external descriptor to exactly one internal port.
pub fn ports_from_scan(descs: &Vec<ScanPort>) -> (r: Vec<Port>)
    ensures
        r.deep_view() == ports_of_scan(descs.deep_view()),
{
    let mut r: Vec<Port> = Vec::new();
    let mut i: usize = 0;
    while i < descs.len()
        invariant
            i <= descs@.len(),
            r@.len() == i,
            forall|k: int|
                0 <= k < i ==> r.deep_view()[k] == ports_of_scan(descs.deep_view())[k],
        decreases descs@.len() - i,
    {
        let d = &descs[i];
        let notes: Vec<Note> = match &d.details {
            Some(lines) => {
                if lines.len() > 0 {
                    let mut ns: Vec<Note> = Vec::new();
                    ns.push(Note::ScanFindings(clone_strings(lines)));
                    ns
                } else {
                    let mut ns: Vec<Note> = Vec::new();
                    ns.push(Note::Empty);
                    ns
                }
            },
            None => {
                let mut ns: Vec<Note> = Vec::new();
                ns.push(Note::Empty);
                ns
            },
        };
        let p = Port {
            service: d.service.clone(),
            application: d.application.clone(),
            protocol: d.protocol.clone(),
            number: d.number,
            state: d.state.clone(),
            notes,
        };
        proof {
            assert(p.deep_view().notes =~= notes_of_details(d.deep_view().details));
            assert(p.deep_view() =~~= port_of_scan(descs.deep_view()[i as int]));
        }
        let ghost prev = r.deep_view();
        r.push(p);
        proof {
            assert(r@.len() == i + 1);
            let ghost target = ports_of_scan(descs.deep_view());
            assert forall|k: int|
                0 <= k < i + 1 implies r.deep_view()[k] == target[k] by {
                if k < i {
                    assert(r.deep_view()[k] == prev[k]);
                } else {
                    assert(r.deep_view()[k] == p.deep_view());
                }
            }
        }
        i += 1;
    }
    proof {
        assert(r.deep_view() =~= ports_of_scan(descs.deep_view()));
    }
    r
}

/// Whether the descriptors' port numbers are pairwise distinct.
pub fn scan_ports_unique(descs: &Vec<ScanPort>) -> (r: bool)
    ensures
        r == scan_numbers_unique(descs.deep_view()),
{
    let mut i: usize = 0;
    while i < descs.len()
        invariant
            i <= descs@.len(),
            forall|a: int, b: int|
                0 <= a < b < descs.deep_view().len() && a < i ==> descs.deep_view()[a].number
                    != descs.deep_view()[b].number,
        decreases descs@.len() - i,
    {
        let mut j: usize = i + 1;
        while j < descs.len()
            invariant
                i < j || i + 1 == j,
                i < descs@.len(),
                j <= descs@.len(),
                i + 1 <= j,
                forall|b: int|
                    i < b < j ==> descs.deep_view()[i as int].number != descs.deep_view()[b].number,
            decreases descs@.len() - j,
        {
            if descs[i].number == descs[j].number {
                proof {
                    assert(descs.deep_view()[i as int].number == descs.deep_view()[
                        j as int].number);
                }
                return false;
            }
            j += 1;
        }
        i += 1;
    }
    true
}

impl Store {
    /// Replaces the whole port list of one machine with the ports a
    /// scan reported, one per descriptor; the descriptors must carry
    /// pairwise distinct numbers, else the response is rejected as
    /// malformed and nothing changes.  Returns how many ports the
    /// scan found.
    pub fn ingest_scan_ports(
        &mut self,
        workspace_id: u32,
        machine_id: u32,
        descs: &Vec<ScanPort>,
    ) -> (r: Result<usize, StoreError>)
        requires
            old(self).wf(),
        ensures
            match r {
                Ok(count) => {
                    let wss = old(self).deep_view().workspaces;
                    &&& scan_numbers_unique(descs.deep_view())
                    &&& has_ws(wss, workspace_id)
                    &&& has_machine(wss[workspace_id - 1], machine_id)
                    &&& count == descs.deep_view().len()
                    &&& final(self).deep_view() == with_machine(
                        old(self).deep_view(),
                        workspace_id - 1,
                        machine_id - 1,
                        MachineV {
                            ports: ports_of_scan(descs.deep_view()),
                            ..wss[workspace_id - 1].machines[machine_id - 1]
                        },
                    )
                    &&& final(self).wf()
                },
                Err(e) => {
                    &&& *final(self) == *old(self)
                    &&& if e is MalformedScanResponse {
                        !scan_numbers_unique(descs.deep_view())
                    } else {
                        scan_numbers_unique(descs.deep_view()) && crate::ops::locate_failure(
                            old(self).deep_view(),
                            workspace_id,
                            machine_id,
                            0,
                            e,
                        ) && !(e is PortNotFound)
                    }
                },
            },
    {
        if !scan_ports_unique(descs) {
            return Err(StoreError::MalformedScanResponse);
        }
        let ports = ports_from_scan(descs);
        proof {
            let pv = ports.deep_view();
            assert forall|a: int, b: int|
                0 <= a < b < pv.len() implies pv[a].number != pv[b].number by {
                assert(descs.deep_view()[a].number != descs.deep_view()[b].number);
            }
        }
        let count = ports.len();
        match self.replace_ports(workspace_id, machine_id, ports) {
            Ok(()) => Ok(count),
            Err(e) => Err(e),
        }
    }

    /// The machines a discovery run appends: one per reported host
    /// address, with hostname `Host_<address>`, sequential identifiers
    /// continuing from `base`, and no ports yet.
    pub open spec fn discovered_machines(base: int, hosts: Seq<Seq<char>>) -> Seq<MachineV> {
        Seq::new(
            hosts.len(),
            |k: int|
                MachineV {
                    id: (base + 1 + k) as u32,
                    hostname: "Host_"@ + hosts[k],
                    icon: "PC"@,
                    ip: hosts[k],
                    ports: Seq::empty(),
                },
        )
    }

    /// Appends one machine per discovered host address to the
    /// workspace; identifiers continue sequentially from the existing
    /// machine count.  Returns how many hosts were added.
    pub fn add_discovered_hosts(&mut self, workspace_id: u32, hosts: &Vec<String>) -> (r: Result<
        usize,
        StoreError,
    >)
        requires
            old(self).wf(),
            (has_ws(old(self).deep_view().workspaces, workspace_id)
                ==> old(self).deep_view().workspaces[workspace_id - 1].machines.len()
                + hosts@.len() < u32::MAX),
        ensures
            match r {
                Ok(count) => {
                    let wss = old(self).deep_view().workspaces;
                    let w0 = wss[workspace_id - 1];
                    &&& has_ws(wss, workspace_id)
                    &&& count == hosts@.len()
                    &&& final(self).deep_view() == with_ws(
                        old(self).deep_view(),
                        workspace_id - 1,
                        WorkspaceV {
                            machines: w0.machines + Store::discovered_machines(
                                w0.machines.len() as int,
                                hosts.deep_view(),
                            ),
                            ..w0
                        },
                    )
                    &&& final(self).wf()
                },
                Err(e) => {
                    &&& *final(self) == *old(self)
                    &&& !has_ws(old(self).deep_view().workspaces, workspace_id)
                    &&& e == (StoreError::WorkspaceNotFound { workspace_id })
                },
            },
    {
        proof {
            crate::store::lemma_wf_ws_positions(self.deep_view(), workspace_id);
        }
        let wpos = match self.ws_pos(workspace_id) {
            None => {
                return Err(StoreError::WorkspaceNotFound { workspace_id });
            },
            Some(i) => i,
        };
        proof {
            assert(ws_at_ok(self.deep_view().workspaces, wpos as int));
            assert(wpos == workspace_id - 1);
        }
        let ghost oldv = self.deep_view();
        let ghost w0 = oldv.workspaces[workspace_id - 1];
        let ghost target = w0.machines + Store::discovered_machines(
            w0.machines.len() as int,
            hosts.deep_view(),
        );
        let w = &mut self.workspaces[wpos];
        let base = w.machines.len();
        let mut k: usize = 0;
        while k < hosts.len()
            invariant
                k <= hosts@.len(),
                base == w0.machines.len(),
                base + hosts@.len() < u32::MAX,
                w.machines@.len() == base + k,
                w.deep_view() == (WorkspaceV {
                    machines: target.take(base + k as int),
                    ..w0
                }),
                target == w0.machines + Store::discovered_machines(base as int, hosts.deep_view()),
                target.len() == base + hosts@.len(),
            decreases hosts@.len() - k,
        {
            let id = (base + k) as u32 + 1;
            let hostname = String::from_str("Host_").concat(hosts[k].as_str());
            let ip = hosts[k].clone();
            let m = Machine { id, hostname, icon: String::from_str("PC"), ip, ports: Vec::new() };
            let ghost mv = m.deep_view();
            w.machines.push(m);
            proof {
                assert(mv.ports =~= Seq::<PortV>::empty());
                assert(mv =~= target[base + k as int]);
                assert(w.deep_view().machines =~= target.take(base + k + 1));
                assert(w.deep_view() =~~= (WorkspaceV {
                    machines: target.take(base + k + 1),
                    ..w0
                }));
            }
            k += 1;
        }
        proof {
            assert(target.take(target.len() as int) =~= target);
            let w1 = WorkspaceV { machines: target, ..w0 };
            assert(self.deep_view() =~~= with_ws(oldv, workspace_id - 1, w1));
            assert forall|i: int| 0 <= i < target.len() implies #[trigger] machine_at_ok(
                target,
                i,
            ) by {
                if i < w0.machines.len() {
                    assert(ws_at_ok(oldv.workspaces, workspace_id - 1));
                    assert(machine_at_ok(w0.machines, i));
                } else {
                    assert(target[i] == Store::discovered_machines(
                        base as int,
                        hosts.deep_view(),
                    )[i - base]);
                }
            }
            assert(ws_at_ok(oldv.workspaces, workspace_id - 1));
            lemma_wf_with_ws(oldv, workspace_id - 1, w1);
        }
        Ok(hosts.len())
    }
}


impl Store {
    /// Replaces the machine's port list with none: what a scan whose
    /// response carried the no-result sentinel leaves behind.
    pub fn ingest_empty_scan(&mut self, workspace_id: u32, machine_id: u32) -> (r: Result<
        (),
        StoreError,
    >)
        requires
            old(self).wf(),
        ensures
            match r {
                Ok(()) => {
                    let wss = old(self).deep_view().workspaces;
                    &&& has_ws(wss, workspace_id)
                    &&& has_machine(wss[workspace_id - 1], machine_id)
                    &&& final(self).deep_view() == with_machine(
                        old(self).deep_view(),
                        workspace_id - 1,
                        machine_id - 1,
                        MachineV {
                            ports: Seq::empty(),
                            ..wss[workspace_id - 1].machines[machine_id - 1]
                        },
                    )
                    &&& final(self).wf()
                },
                Err(e) => {
                    &&& *final(self) == *old(self)
                    &&& crate::ops::locate_failure(
                        old(self).deep_view(),
                        workspace_id,
                        machine_id,
                        0,
                        e,
                    )
                    &&& !(e is PortNotFound)
                },
            },
    {
        let none: Vec<Port> = Vec::new();
        proof {
            assert(none.deep_view() =~= Seq::<PortV>::empty());
        }
        self.replace_ports(workspace_id, machine_id, none)
    }
}

} // verus!
