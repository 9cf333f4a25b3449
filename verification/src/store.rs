//! The hierarchical inventory: workspaces own machines, machines own
//! ports, ports own notes.  Identifiers are assigned sequentially
//! (`count + 1`) in the scope of the owning entity, so a well-formed
//! store has identifier `i + 1` at position `i` on both the workspace
//! and the machine level; port entries are keyed by their port number,
//! which is unique within a machine.

use vstd::prelude::*;

verus! {

/// A typed annotation attached to a port.
#[derive(Debug, Clone, PartialEq, Eq)]
#[verifier::ext_equal]
pub enum Note {
    /// Raw scan output lines.
    ScanFindings(Vec<String>),
    /// Captured credentials; every field is independently optional.
    Credentials { name: Option<String>, hash: Option<String>, password: Option<String> },
    /// Free-text note tied to an engagement phase; its content is
    /// editable in place by index.
    PentestObservation { stage: String, content: String, timestamp: String },
    /// Explicit placeholder meaning "no data yet".
    Empty,
}

/// Mathematical shape of a [`Note`].
#[verifier::ext_equal]
pub ghost enum NoteV {
    ScanFindings(Seq<Seq<char>>),
    Credentials { name: Option<Seq<char>>, hash: Option<Seq<char>>, password: Option<Seq<char>> },
    PentestObservation { stage: Seq<char>, content: Seq<char>, timestamp: Seq<char> },
    Empty,
}

impl DeepView for Note {
    type V = NoteV;

    open spec fn deep_view(&self) -> NoteV {
        match self {
            Note::ScanFindings(lines) => NoteV::ScanFindings(lines.deep_view()),
            Note::Credentials { name, hash, password } => NoteV::Credentials {
                name: name.deep_view(),
                hash: hash.deep_view(),
                password: password.deep_view(),
            },
            Note::PentestObservation { stage, content, timestamp } => NoteV::PentestObservation {
                stage: stage.deep_view(),
                content: content.deep_view(),
                timestamp: timestamp.deep_view(),
            },
            Note::Empty => NoteV::Empty,
        }
    }
}

/// A network service endpoint on a machine, keyed by `number` within
/// that machine.
#[derive(Debug, Clone, PartialEq, Eq)]
#[verifier::ext_equal]
pub struct Port {
    pub service: String,
    pub application: String,
    pub protocol: String,
    pub number: u16,
    pub state: String,
    pub notes: Vec<Note>,
}

/// Mathematical shape of a [`Port`].
#[verifier::ext_equal]
pub ghost struct PortV {
    pub service: Seq<char>,
    pub application: Seq<char>,
    pub protocol: Seq<char>,
    pub number: u16,
    pub state: Seq<char>,
    pub notes: Seq<NoteV>,
}

impl DeepView for Port {
    type V = PortV;

    open spec fn deep_view(&self) -> PortV {
        PortV {
            service: self.service.deep_view(),
            application: self.application.deep_view(),
            protocol: self.protocol.deep_view(),
            number: self.number,
            state: self.state.deep_view(),
            notes: self.notes.deep_view(),
        }
    }
}

/// A discovered or manually added host within a workspace.
#[derive(Debug, Clone, PartialEq, Eq)]
#[verifier::ext_equal]
pub struct Machine {
    pub id: u32,
    pub hostname: String,
    pub icon: String,
    pub ip: String,
    pub ports: Vec<Port>,
}

/// Mathematical shape of a [`Machine`].
#[verifier::ext_equal]
pub ghost struct MachineV {
    pub id: u32,
    pub hostname: Seq<char>,
    pub icon: Seq<char>,
    pub ip: Seq<char>,
    pub ports: Seq<PortV>,
}

impl DeepView for Machine {
    type V = MachineV;

    open spec fn deep_view(&self) -> MachineV {
        MachineV {
            id: self.id,
            hostname: self.hostname.deep_view(),
            icon: self.icon.deep_view(),
            ip: self.ip.deep_view(),
            ports: self.ports.deep_view(),
        }
    }
}

/// A named engagement scope with an associated IP range.
#[derive(Debug, Clone, PartialEq, Eq)]
#[verifier::ext_equal]
pub struct Workspace {
    pub id: u32,
    pub name: String,
    pub ip_range: String,
    pub machines: Vec<Machine>,
}

/// Mathematical shape of a [`Workspace`].
#[verifier::ext_equal]
pub ghost struct WorkspaceV {
    pub id: u32,
    pub name: Seq<char>,
    pub ip_range: Seq<char>,
    pub machines: Seq<MachineV>,
}

impl DeepView for Workspace {
    type V = WorkspaceV;

    open spec fn deep_view(&self) -> WorkspaceV {
        WorkspaceV {
            id: self.id,
            name: self.name.deep_view(),
            ip_range: self.ip_range.deep_view(),
            machines: self.machines.deep_view(),
        }
    }
}

/// The full in-memory dataset: a named root holding an ordered
/// sequence of workspaces.
#[derive(Debug, Clone, PartialEq, Eq)]
#[verifier::ext_equal]
pub struct Store {
    pub name: String,
    pub workspaces: Vec<Workspace>,
}

/// Mathematical shape of a [`Store`].
#[verifier::ext_equal]
pub ghost struct StoreV {
    pub name: Seq<char>,
    pub workspaces: Seq<WorkspaceV>,
}

impl DeepView for Store {
    type V = StoreV;

    open spec fn deep_view(&self) -> StoreV {
        StoreV { name: self.name.deep_view(), workspaces: self.workspaces.deep_view() }
    }
}

/// Port numbers are unique within one machine's port list.
pub open spec fn ports_wf(ports: Seq<PortV>) -> bool {
    forall|i: int, j: int|
        0 <= i < j < ports.len() ==> ports[i].number != ports[j].number
}

/// A machine's ports are keyed by unique port numbers.
pub open spec fn machine_wf(m: MachineV) -> bool {
    ports_wf(m.ports)
}

/// The machine at position `i` carries identifier `i + 1` — what
/// sequential assignment produces — and is well-formed.
pub open spec fn machine_at_ok(ms: Seq<MachineV>, i: int) -> bool {
    ms[i].id == i + 1 && machine_wf(ms[i])
}

/// Machine identifiers are exactly `position + 1`, which keeps them
/// unique, and every machine is well-formed.
pub open spec fn workspace_wf(w: WorkspaceV) -> bool {
    forall|i: int| 0 <= i < w.machines.len() ==> #[trigger] machine_at_ok(w.machines, i)
}

/// The workspace at position `i` carries identifier `i + 1` and is
/// well-formed.
pub open spec fn ws_at_ok(wss: Seq<WorkspaceV>, i: int) -> bool {
    wss[i].id == i + 1 && workspace_wf(wss[i])
}

/// Well-formed store: workspace identifiers are exactly
/// `position + 1`, and every workspace is itself well-formed.
pub open spec fn store_wf(s: StoreV) -> bool {
    forall|i: int| 0 <= i < s.workspaces.len() ==> #[trigger] ws_at_ok(s.workspaces, i)
}

impl Workspace {
    /// Position of the first machine with this identifier.
    pub(crate) fn machine_pos(&self, machine_id: u32) -> (r: Option<usize>)
        ensures
            match r {
                Some(i) => i < self.deep_view().machines.len()
                    && self.deep_view().machines[i as int].id == machine_id,
                None => !has_machine(self.deep_view(), machine_id),
            },
    {
        let mut i: usize = 0;
        while i < self.machines.len()
            invariant
                i <= self.deep_view().machines.len(),
                self.deep_view().machines.len() == self.machines.len(),
                forall|k: int| 0 <= k < i ==> self.deep_view().machines[k].id != machine_id,
            decreases self.machines.len() - i,
        {
            if self.machines[i].id == machine_id {
                return Some(i);
            }
            i += 1;
        }
        None
    }

    /// Looks up a machine of this workspace by identifier.
    pub fn find_machine(&self, machine_id: u32) -> (r: Option<&Machine>)
        requires
            workspace_wf(self.deep_view()),
        ensures
            match r {
                Some(m) => 1 <= machine_id <= self.deep_view().machines.len()
                    && m.deep_view() == self.deep_view().machines[machine_id - 1],
                None => !has_machine(self.deep_view(), machine_id),
            },
    {
        proof {
            lemma_wf_machine_positions(self.deep_view(), machine_id);
        }
        match self.machine_pos(machine_id) {
            Some(i) => Some(&self.machines[i]),
            None => None,
        }
    }
}

impl Machine {
    /// Position of the first port with this number.
    pub(crate) fn port_pos_exec(&self, number: u16) -> (r: Option<usize>)
        ensures
            match r {
                Some(i) => i < self.deep_view().ports.len()
                    && self.deep_view().ports[i as int].number == number
                    && forall|k: int| 0 <= k < i ==> self.deep_view().ports[k].number != number,
                None => !has_port(self.deep_view().ports, number),
            },
    {
        let mut i: usize = 0;
        while i < self.ports.len()
            invariant
                i <= self.deep_view().ports.len(),
                self.deep_view().ports.len() == self.ports.len(),
                forall|k: int| 0 <= k < i ==> self.deep_view().ports[k].number != number,
            decreases self.ports.len() - i,
        {
            if self.ports[i].number == number {
                return Some(i);
            }
            i += 1;
        }
        None
    }

    /// Looks up a port of this machine by port number, which is the
    /// key of a port within its machine.
    pub fn find_port(&self, number: u16) -> (r: Option<&Port>)
        requires
            machine_wf(self.deep_view()),
        ensures
            match r {
                Some(p) => has_port(self.deep_view().ports, number) && p.deep_view()
                    == self.deep_view().ports[port_pos(self.deep_view().ports, number)]
                    && p.deep_view().number == number,
                None => !has_port(self.deep_view().ports, number),
            },
    {
        match self.port_pos_exec(number) {
            Some(i) => {
                proof {
                    let ports = self.deep_view().ports;
                    let k = port_pos(ports, number);
                    assert(0 <= k < ports.len() && ports[k].number == number);
                    assert(k == i);
                }
                Some(&self.ports[i])
            },
            None => None,
        }
    }
}

/// Some workspace in the sequence carries this identifier.
pub open spec fn has_ws(wss: Seq<WorkspaceV>, workspace_id: u32) -> bool {
    exists|i: int| 0 <= i < wss.len() && wss[i].id == workspace_id
}

/// Some machine of the workspace carries this identifier.
pub open spec fn has_machine(w: WorkspaceV, machine_id: u32) -> bool {
    exists|i: int| 0 <= i < w.machines.len() && w.machines[i].id == machine_id
}

/// Some port of the sequence carries this port number.
pub open spec fn has_port(ports: Seq<PortV>, number: u16) -> bool {
    exists|i: int| 0 <= i < ports.len() && ports[i].number == number
}

/// Position of the port carrying `number`; meaningful only when
/// `has_port` holds, and unique when the numbers are unique.
pub open spec fn port_pos(ports: Seq<PortV>, number: u16) -> int {
    choose|i: int| 0 <= i < ports.len() && ports[i].number == number
}

/// In a well-formed store an identifier is present exactly when it is
/// between 1 and the entity count, and it sits at position `id - 1`.
pub proof fn lemma_wf_ws_positions(s: StoreV, workspace_id: u32)
    requires
        store_wf(s),
    ensures
        has_ws(s.workspaces, workspace_id) <==> 1 <= workspace_id
            <= s.workspaces.len(),
        has_ws(s.workspaces, workspace_id) ==> s.workspaces[workspace_id
            - 1].id == workspace_id && workspace_wf(s.workspaces[workspace_id - 1]),
        (forall|i: int| 0 <= i < s.workspaces.len() ==> s.workspaces[i].id == i + 1),
{
    assert forall|i: int| 0 <= i < s.workspaces.len() implies s.workspaces[i].id == i + 1 by {
        assert(ws_at_ok(s.workspaces, i));
    }
    if has_ws(s.workspaces, workspace_id) {
        let i = choose|i: int|
            0 <= i < s.workspaces.len() && s.workspaces[i].id == workspace_id;
        assert(ws_at_ok(s.workspaces, i));
    }
    if 1 <= workspace_id <= s.workspaces.len() {
        assert(ws_at_ok(s.workspaces, workspace_id - 1));
    }
}

/// In a well-formed workspace a machine identifier is present exactly
/// when it is between 1 and the machine count, and it sits at
/// position `id - 1`.
pub proof fn lemma_wf_machine_positions(w: WorkspaceV, machine_id: u32)
    requires
        workspace_wf(w),
    ensures
        has_machine(w, machine_id) <==> 1 <= machine_id <= w.machines.len(),
        has_machine(w, machine_id) ==> w.machines[machine_id - 1].id == machine_id && machine_wf(
            w.machines[machine_id - 1],
        ),
        (forall|i: int| 0 <= i < w.machines.len() ==> w.machines[i].id == i + 1),
{
    assert forall|i: int| 0 <= i < w.machines.len() implies w.machines[i].id == i + 1 by {
        assert(machine_at_ok(w.machines, i));
    }
    if has_machine(w, machine_id) {
        let i = choose|i: int| 0 <= i < w.machines.len() && w.machines[i].id == machine_id;
        assert(machine_at_ok(w.machines, i));
    }
    if 1 <= machine_id <= w.machines.len() {
        assert(machine_at_ok(w.machines, machine_id - 1));
    }
}

impl Store {
    /// Abbreviation for well-formedness of this store's shape.
    pub open spec fn wf(&self) -> bool {
        store_wf(self.deep_view())
    }

    /// Position of the first workspace with this identifier.
    pub(crate) fn ws_pos(&self, workspace_id: u32) -> (r: Option<usize>)
        ensures
            match r {
                Some(i) => i < self.deep_view().workspaces.len()
                    && self.deep_view().workspaces[i as int].id == workspace_id,
                None => !has_ws(self.deep_view().workspaces, workspace_id),
            },
    {
        let ghost wss = self.deep_view().workspaces;
        let mut i: usize = 0;
        while i < self.workspaces.len()
            invariant
                i <= wss.len(),
                wss.len() == self.workspaces.len(),
                wss =~= self.deep_view().workspaces,
                forall|k: int| 0 <= k < i ==> wss[k].id != workspace_id,
            decreases self.workspaces.len() - i,
        {
            if self.workspaces[i].id == workspace_id {
                return Some(i);
            }
            i += 1;
        }
        None
    }

    /// Looks up a workspace by identifier; a linear scan, since
    /// insertion order is user-visible.
    pub fn find_workspace(&self, workspace_id: u32) -> (r: Option<&Workspace>)
        requires
            self.wf(),
        ensures
            match r {
                Some(w) => 1 <= workspace_id <= self.deep_view().workspaces.len()
                    && w.deep_view() == self.deep_view().workspaces[workspace_id - 1],
                None => !has_ws(self.deep_view().workspaces, workspace_id),
            },
    {
        proof {
            lemma_wf_ws_positions(self.deep_view(), workspace_id);
        }
        match self.ws_pos(workspace_id) {
            Some(i) => Some(&self.workspaces[i]),
            None => None,
        }
    }

    /// Looks up a machine through its workspace.
    pub fn find_machine(&self, workspace_id: u32, machine_id: u32) -> (r: Option<&Machine>)
        requires
            self.wf(),
        ensures
            match r {
                Some(m) => {
                    let wss = self.deep_view().workspaces;
                    1 <= workspace_id <= wss.len()
                        && 1 <= machine_id <= wss[workspace_id - 1].machines.len()
                        && m.deep_view() == wss[workspace_id - 1].machines[machine_id - 1]
                },
                None => !has_ws(self.deep_view().workspaces, workspace_id)
                    || (has_ws(self.deep_view().workspaces, workspace_id)
                    && !has_machine(self.deep_view().workspaces[workspace_id - 1], machine_id)),
            },
    {
        proof {
            lemma_wf_ws_positions(self.deep_view(), workspace_id);
        }
        match self.find_workspace(workspace_id) {
            Some(w) => w.find_machine(machine_id),
            None => None,
        }
    }

    /// Looks up a port by number through its workspace and machine.
    pub fn find_port(&self, workspace_id: u32, machine_id: u32, port_number: u16) -> (r: Option<
        &Port,
    >)
        requires
            self.wf(),
        ensures
            match r {
                Some(p) => {
                    let wss = self.deep_view().workspaces;
                    let ports = wss[workspace_id - 1].machines[machine_id - 1].ports;
                    1 <= workspace_id <= wss.len()
                        && 1 <= machine_id <= wss[workspace_id - 1].machines.len()
                        && has_port(ports, port_number)
                        && p.deep_view() == ports[port_pos(ports, port_number)]
                        && p.deep_view().number == port_number
                },
                None => !has_ws(self.deep_view().workspaces, workspace_id)
                    || !has_machine(self.deep_view().workspaces[workspace_id - 1], machine_id)
                    || !has_port(
                    self.deep_view().workspaces[workspace_id - 1].machines[machine_id - 1].ports,
                    port_number,
                ),
            },
    {
        match self.find_machine(workspace_id, machine_id) {
            Some(m) => {
                proof {
                    let wss = self.deep_view().workspaces;
                    assert(ws_at_ok(wss, workspace_id - 1));
                    assert(machine_at_ok(wss[workspace_id - 1].machines, machine_id - 1));
                }
                m.find_port(port_number)
            },
            None => None,
        }
    }

    /// The empty default store, used when nothing has been persisted
    /// yet or the persisted document is unreadable.
    pub fn empty() -> (s: Store)
        ensures
            s.deep_view().name == "Default"@,
            s.deep_view().workspaces.len() == 0,
            s.wf(),
    {
        let s = Store { name: String::from_str("Default"), workspaces: Vec::new() };
        proof {
            assert(s.deep_view().workspaces =~= Seq::<WorkspaceV>::empty());
        }
        s
    }
}


impl Machine {
    /// Whether this machine's port numbers are pairwise distinct.
    pub fn check_wf(&self) -> (b: bool)
        ensures
            b == machine_wf(self.deep_view()),
    {
        let mut i: usize = 0;
        while i < self.ports.len()
            invariant
                i <= self.ports@.len(),
                forall|a: int, b: int|
                    0 <= a < b < self.deep_view().ports.len() && a < i
                        ==> self.deep_view().ports[a].number != self.deep_view().ports[b].number,
            decreases self.ports@.len() - i,
        {
            let mut j: usize = i + 1;
            while j < self.ports.len()
                invariant
                    i < self.ports@.len(),
                    i + 1 <= j <= self.ports@.len(),
                    forall|b: int|
                        i < b < j ==> self.deep_view().ports[i as int].number
                            != self.deep_view().ports[b].number,
                decreases self.ports@.len() - j,
            {
                if self.ports[i].number == self.ports[j].number {
                    proof {
                        assert(self.deep_view().ports[i as int].number == self.deep_view().ports[
                            j as int].number);
                    }
                    return false;
                }
                j += 1;
            }
            i += 1;
        }
        true
    }
}

impl Workspace {
    /// Whether this workspace's machine identifiers are sequential
    /// and its machines well-formed.
    #[verifier::loop_isolation(false)]
    pub fn check_wf(&self) -> (b: bool)
        ensures
            b == workspace_wf(self.deep_view()),
    {
        let mut i: usize = 0;
        while i < self.machines.len()
            invariant
                i <= self.machines@.len(),
                forall|k: int| 0 <= k < i ==> machine_at_ok(self.deep_view().machines, k),
            decreases self.machines@.len() - i,
        {
            if (self.machines[i].id as u64) != (i as u64) + 1 {
                proof {
                    assert(!machine_at_ok(self.deep_view().machines, i as int));
                }
                return false;
            }
            if !self.machines[i].check_wf() {
                proof {
                    assert(!machine_at_ok(self.deep_view().machines, i as int));
                }
                return false;
            }
            proof {
                assert(machine_at_ok(self.deep_view().machines, i as int));
            }
            i += 1;
        }
        true
    }
}

impl Store {
    /// Whether the store satisfies its well-formedness invariant:
    /// sequential identifiers on both levels, unique port numbers per
    /// machine.
    #[verifier::loop_isolation(false)]
    pub fn check_wf(&self) -> (b: bool)
        ensures
            b == self.wf(),
    {
        let mut i: usize = 0;
        while i < self.workspaces.len()
            invariant
                i <= self.workspaces@.len(),
                forall|k: int| 0 <= k < i ==> ws_at_ok(self.deep_view().workspaces, k),
            decreases self.workspaces@.len() - i,
        {
            if (self.workspaces[i].id as u64) != (i as u64) + 1 {
                proof {
                    assert(!ws_at_ok(self.deep_view().workspaces, i as int));
                }
                return false;
            }
            if !self.workspaces[i].check_wf() {
                proof {
                    assert(!ws_at_ok(self.deep_view().workspaces, i as int));
                }
                return false;
            }
            proof {
                assert(ws_at_ok(self.deep_view().workspaces, i as int));
            }
            i += 1;
        }
        true
    }
}

} // verus!
