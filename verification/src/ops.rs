//! Store transactions: insertions and in-place mutations, each keyed
//! by an identifier chain.  Every operation states exactly which store
//! it leaves behind and on which inputs it fails; a failing operation
//! leaves the store unchanged.

use vstd::prelude::*;

use crate::errors::StoreError;
use crate::store::{
    has_machine, has_port, has_ws, lemma_wf_machine_positions, lemma_wf_ws_positions,
    machine_at_ok, machine_wf, port_pos, ports_wf, store_wf, workspace_wf, ws_at_ok, Machine,
    MachineV, Note, NoteV, Port, PortV, Store, StoreV, Workspace, WorkspaceV,
};

verus! {

/// `s` with the workspace at position `wi` replaced.
pub open spec fn with_ws(s: StoreV, wi: int, w: WorkspaceV) -> StoreV {
    StoreV { name: s.name, workspaces: s.workspaces.update(wi, w) }
}

/// `s` with the machine at position `mi` of the workspace at position
/// `wi` replaced.
pub open spec fn with_machine(s: StoreV, wi: int, mi: int, m: MachineV) -> StoreV {
    with_ws(
        s,
        wi,
        WorkspaceV { machines: s.workspaces[wi].machines.update(mi, m), ..s.workspaces[wi] },
    )
}

/// `s` with the port at position `pi` of machine `mi` of workspace
/// `wi` replaced.
pub open spec fn with_port(s: StoreV, wi: int, mi: int, pi: int, p: PortV) -> StoreV {
    with_machine(
        s,
        wi,
        mi,
        MachineV {
            ports: s.workspaces[wi].machines[mi].ports.update(pi, p),
            ..s.workspaces[wi].machines[mi]
        },
    )
}

/// Replacing a workspace preserves well-formedness when the
/// replacement keeps the identifier and is itself well-formed.
pub proof fn lemma_wf_with_ws(s: StoreV, wi: int, w: WorkspaceV)
    requires
        store_wf(s),
        0 <= wi < s.workspaces.len(),
        w.id == s.workspaces[wi].id,
        workspace_wf(w),
    ensures
        store_wf(with_ws(s, wi, w)),
{
    let t = with_ws(s, wi, w);
    assert forall|i: int| 0 <= i < t.workspaces.len() implies #[trigger] ws_at_ok(
        t.workspaces,
        i,
    ) by {
        assert(ws_at_ok(s.workspaces, i));
    }
}

/// Replacing a machine preserves well-formedness when the replacement
/// keeps the identifier and is itself well-formed.
pub proof fn lemma_wf_with_machine(s: StoreV, wi: int, mi: int, m: MachineV)
    requires
        store_wf(s),
        0 <= wi < s.workspaces.len(),
        0 <= mi < s.workspaces[wi].machines.len(),
        m.id == s.workspaces[wi].machines[mi].id,
        machine_wf(m),
    ensures
        store_wf(with_machine(s, wi, mi, m)),
{
    let w0 = s.workspaces[wi];
    let ms1 = w0.machines.update(mi, m);
    assert(ws_at_ok(s.workspaces, wi));
    assert forall|k: int| 0 <= k < ms1.len() implies #[trigger] machine_at_ok(ms1, k) by {
        assert(machine_at_ok(w0.machines, k));
    }
    lemma_wf_with_ws(s, wi, WorkspaceV { machines: ms1, ..w0 });
}

/// Replacing one port of a machine preserves well-formedness when the
/// replacement keeps the port number.
pub proof fn lemma_wf_with_port(s: StoreV, wi: int, mi: int, pi: int, p: PortV)
    requires
        store_wf(s),
        0 <= wi < s.workspaces.len(),
        0 <= mi < s.workspaces[wi].machines.len(),
        0 <= pi < s.workspaces[wi].machines[mi].ports.len(),
        p.number == s.workspaces[wi].machines[mi].ports[pi].number,
    ensures
        store_wf(with_port(s, wi, mi, pi, p)),
{
    assert(ws_at_ok(s.workspaces, wi));
    assert(machine_at_ok(s.workspaces[wi].machines, mi));
    let m0 = s.workspaces[wi].machines[mi];
    let ports1 = m0.ports.update(pi, p);
    assert forall|i: int, j: int|
        0 <= i < j < ports1.len() implies ports1[i].number != ports1[j].number by {
        assert(m0.ports[i].number != m0.ports[j].number);
    }
    lemma_wf_with_machine(s, wi, mi, MachineV { ports: ports1, ..m0 });
}

impl Store {
    /// Appends a workspace named `name` over `ip_range`, assigning the
    /// next sequential identifier, which no existing workspace
    /// carries.
    pub fn add_workspace(&mut self, name: String, ip_range: String) -> (workspace_id: u32)
        requires
            old(self).wf(),
            (old(self).deep_view().workspaces.len() < u32::MAX),
        ensures
            workspace_id == old(self).deep_view().workspaces.len() + 1,
            !has_ws(old(self).deep_view().workspaces, workspace_id),
            final(self).deep_view() == (StoreV {
                name: old(self).deep_view().name,
                workspaces: old(self).deep_view().workspaces.push(
                    WorkspaceV {
                        id: workspace_id,
                        name: name@,
                        ip_range: ip_range@,
                        machines: Seq::empty(),
                    },
                ),
            }),
            final(self).wf(),
    {
        let workspace_id = self.workspaces.len() as u32 + 1;
        let w = Workspace { id: workspace_id, name, ip_range, machines: Vec::new() };
        let ghost wv = w.deep_view();
        self.workspaces.push(w);
        proof {
            let oldv = old(self).deep_view();
            let wss1 = self.deep_view().workspaces;
            assert(wv.machines =~= Seq::<MachineV>::empty());
            assert(wss1 =~~= oldv.workspaces.push(wv));
            assert forall|i: int| 0 <= i < wss1.len() implies #[trigger] ws_at_ok(wss1, i) by {
                if i < oldv.workspaces.len() {
                    assert(ws_at_ok(oldv.workspaces, i));
                }
            }
            assert forall|i: int|
                0 <= i < oldv.workspaces.len() implies oldv.workspaces[i].id != workspace_id by {
                assert(ws_at_ok(oldv.workspaces, i));
            }
        }
        workspace_id
    }

    /// Appends a machine to the workspace carrying `workspace_id`,
    /// assigning the next machine identifier in that workspace's
    /// scope; the icon defaults to `"PC"` and the port list starts
    /// empty.
    pub fn add_machine(&mut self, workspace_id: u32, hostname: String, ip: String) -> (r: Result<
        u32,
        StoreError,
    >)
        requires
            old(self).wf(),
            (has_ws(old(self).deep_view().workspaces, workspace_id)
                ==> old(self).deep_view().workspaces[workspace_id - 1].machines.len()
                < u32::MAX),
        ensures
            match r {
                Ok(machine_id) => {
                    let wss = old(self).deep_view().workspaces;
                    &&& has_ws(wss, workspace_id)
                    &&& machine_id == wss[workspace_id - 1].machines.len() + 1
                    &&& !has_machine(wss[workspace_id - 1], machine_id)
                    &&& final(self).deep_view() == with_ws(
                        old(self).deep_view(),
                        workspace_id - 1,
                        WorkspaceV {
                            machines: wss[workspace_id - 1].machines.push(
                                MachineV {
                                    id: machine_id,
                                    hostname: hostname@,
                                    icon: "PC"@,
                                    ip: ip@,
                                    ports: Seq::empty(),
                                },
                            ),
                            ..wss[workspace_id - 1]
                        },
                    )
                    &&& final(self).wf()
                },
                Err(e) => {
                    &&& *final(self) == *old(self)
                    &&& !has_ws(old(self).deep_view().workspaces, workspace_id)
                    &&& e == (StoreError::WorkspaceNotFound { workspace_id })
                },
            },
    {
        proof {
            lemma_wf_ws_positions(self.deep_view(), workspace_id);
        }
        let wpos = match self.ws_pos(workspace_id) {
            None => {
                return Err(StoreError::WorkspaceNotFound { workspace_id });
            },
            Some(i) => i,
        };
        proof {
            assert(ws_at_ok(self.deep_view().workspaces, wpos as int));
        }
        let ghost oldv = self.deep_view();
        proof {
            assert(wpos == workspace_id - 1);
        }
        let w = &mut self.workspaces[wpos];
        let machine_id = w.machines.len() as u32 + 1;
        let m = Machine {
            id: machine_id,
            hostname,
            icon: String::from_str("PC"),
            ip,
            ports: Vec::new(),
        };
        let ghost mv = m.deep_view();
        w.machines.push(m);
        proof {
            let w0 = oldv.workspaces[workspace_id - 1];
            let ms1 = w0.machines.push(mv);
            let w1 = WorkspaceV { machines: ms1, ..w0 };
            assert(mv.ports =~= Seq::<PortV>::empty());
            assert(self.deep_view() =~~= with_ws(oldv, workspace_id - 1, w1));
            assert(ws_at_ok(oldv.workspaces, workspace_id - 1));
            assert forall|k: int| 0 <= k < ms1.len() implies #[trigger] machine_at_ok(ms1, k) by {
                if k < w0.machines.len() {
                    assert(machine_at_ok(w0.machines, k));
                }
            }
            lemma_wf_with_ws(oldv, workspace_id - 1, w1);
            assert forall|k: int|
                0 <= k < w0.machines.len() implies w0.machines[k].id != machine_id by {
                assert(machine_at_ok(w0.machines, k));
            }
        }
        Ok(machine_id)
    }

    /// Position of the machine carrying `machine_id` inside the
    /// workspace carrying `workspace_id`, or the error naming the
    /// first identifier of the chain that is missing.
    fn locate_machine(&self, workspace_id: u32, machine_id: u32) -> (r: Result<
        (usize, usize),
        StoreError,
    >)
        requires
            self.wf(),
        ensures
            match r {
                Ok((wpos, mpos)) => {
                    let wss = self.deep_view().workspaces;
                    &&& has_ws(wss, workspace_id)
                    &&& wpos == workspace_id - 1
                    &&& 1 <= workspace_id <= wss.len()
                    &&& has_machine(wss[workspace_id - 1], machine_id)
                    &&& mpos == machine_id - 1
                    &&& 1 <= machine_id <= wss[workspace_id - 1].machines.len()
                },
                Err(e) => match e {
                    StoreError::WorkspaceNotFound { workspace_id: w } => w == workspace_id
                        && !has_ws(self.deep_view().workspaces, workspace_id),
                    StoreError::MachineNotFound { workspace_id: w, machine_id: m } => w
                        == workspace_id && m == machine_id && has_ws(
                        self.deep_view().workspaces,
                        workspace_id,
                    ) && !has_machine(
                        self.deep_view().workspaces[workspace_id - 1],
                        machine_id,
                    ),
                    _ => false,
                },
            },
    {
        proof {
            lemma_wf_ws_positions(self.deep_view(), workspace_id);
        }
        let wpos = match self.ws_pos(workspace_id) {
            None => {
                return Err(StoreError::WorkspaceNotFound { workspace_id });
            },
            Some(i) => i,
        };
        proof {
            assert(ws_at_ok(self.deep_view().workspaces, wpos as int));
            lemma_wf_machine_positions(
                self.deep_view().workspaces[wpos as int],
                machine_id,
            );
        }
        let mpos = match self.workspaces[wpos].machine_pos(machine_id) {
            None => {
                return Err(StoreError::MachineNotFound { workspace_id, machine_id });
            },
            Some(i) => i,
        };
        proof {
            assert(machine_at_ok(self.deep_view().workspaces[wpos as int].machines, mpos as int));
        }
        Ok((wpos, mpos))
    }

    /// Positions of the port carrying `port_number` on the machine
    /// carrying `machine_id` in the workspace carrying `workspace_id`,
    /// or the error naming the first link of the chain that is
    /// missing.
    fn locate_port(&self, workspace_id: u32, machine_id: u32, port_number: u16) -> (r: Result<
        (usize, usize, usize),
        StoreError,
    >)
        requires
            self.wf(),
        ensures
            match r {
                Ok((wpos, mpos, ppos)) => {
                    let wss = self.deep_view().workspaces;
                    let ports = wss[workspace_id - 1].machines[machine_id - 1].ports;
                    &&& has_ws(wss, workspace_id)
                    &&& wpos == workspace_id - 1
                    &&& 1 <= workspace_id <= wss.len()
                    &&& has_machine(wss[workspace_id - 1], machine_id)
                    &&& mpos == machine_id - 1
                    &&& 1 <= machine_id <= wss[workspace_id - 1].machines.len()
                    &&& has_port(ports, port_number)
                    &&& ppos == port_pos(ports, port_number)
                    &&& ppos < ports.len()
                    &&& ports[ppos as int].number == port_number
                },
                Err(e) => match e {
                    StoreError::WorkspaceNotFound { workspace_id: w } => w == workspace_id
                        && !has_ws(self.deep_view().workspaces, workspace_id),
                    StoreError::MachineNotFound { workspace_id: w, machine_id: m } => w
                        == workspace_id && m == machine_id && has_ws(
                        self.deep_view().workspaces,
                        workspace_id,
                    ) && !has_machine(
                        self.deep_view().workspaces[workspace_id - 1],
                        machine_id,
                    ),
                    StoreError::PortNotFound { workspace_id: w, machine_id: m, port_number: n } => {
                        let wss = self.deep_view().workspaces;
                        &&& w == workspace_id
                        &&& m == machine_id
                        &&& n == port_number
                        &&& has_ws(wss, workspace_id)
                        &&& has_machine(wss[workspace_id - 1], machine_id)
                        &&& !has_port(
                            wss[workspace_id - 1].machines[machine_id - 1].ports,
                            port_number,
                        )
                    },
                    _ => false,
                },
            },
    {
        let (wpos, mpos) = match self.locate_machine(workspace_id, machine_id) {
            Err(e) => {
                return Err(e);
            },
            Ok(p) => p,
        };
        proof {
            assert(ws_at_ok(self.deep_view().workspaces, wpos as int));
            assert(machine_at_ok(self.deep_view().workspaces[wpos as int].machines, mpos as int));
        }
        let ppos = match self.workspaces[wpos].machines[mpos].port_pos_exec(port_number) {
            None => {
                return Err(
                    StoreError::PortNotFound { workspace_id, machine_id, port_number },
                );
            },
            Some(i) => i,
        };
        proof {
            let ports = self.deep_view().workspaces[wpos as int].machines[mpos as int].ports;
            let k = port_pos(ports, port_number);
            assert(0 <= k < ports.len() && ports[k].number == port_number);
            assert(k == ppos);
        }
        Ok((wpos, mpos, ppos))
    }

    /// Replaces the whole port list of one machine; the given ports
    /// must be keyed by distinct numbers, as the store invariant
    /// demands.
    pub fn replace_ports(&mut self, workspace_id: u32, machine_id: u32, ports: Vec<Port>) -> (r:
        Result<(), StoreError>)
        requires
            old(self).wf(),
            ports_wf(ports.deep_view()),
        ensures
            match r {
                Ok(()) => {
                    let wss = old(self).deep_view().workspaces;
                    &&& has_ws(wss, workspace_id)
                    &&& has_machine(wss[workspace_id - 1], machine_id)
                    &&& final(self).deep_view() == with_machine(
                        old(self).deep_view(),
                        workspace_id - 1,
                        machine_id - 1,
                        MachineV {
                            ports: ports.deep_view(),
                            ..wss[workspace_id - 1].machines[machine_id - 1]
                        },
                    )
                    &&& final(self).wf()
                },
                Err(e) => {
                    &&& *final(self) == *old(self)
                    &&& match e {
                        StoreError::WorkspaceNotFound { workspace_id: w } => w == workspace_id
                            && !has_ws(old(self).deep_view().workspaces, workspace_id),
                        StoreError::MachineNotFound { workspace_id: w, machine_id: m } => w
                            == workspace_id && m == machine_id && has_ws(
                            old(self).deep_view().workspaces,
                            workspace_id,
                        ) && !has_machine(
                            old(self).deep_view().workspaces[workspace_id - 1],
                            machine_id,
                        ),
                        _ => false,
                    }
                },
            },
    {
        let (wpos, mpos) = match self.locate_machine(workspace_id, machine_id) {
            Err(e) => {
                return Err(e);
            },
            Ok(p) => p,
        };
        let ghost oldv = self.deep_view();
        let ghost portsv = ports.deep_view();
        let w = &mut self.workspaces[wpos];
        let m = &mut w.machines[mpos];
        m.ports = ports;
        proof {
            let m0 = oldv.workspaces[workspace_id - 1].machines[machine_id - 1];
            let m1 = MachineV { ports: portsv, ..m0 };
            assert(self.deep_view() =~~= with_machine(
                oldv,
                workspace_id - 1,
                machine_id - 1,
                m1,
            ));
            lemma_wf_with_machine(oldv, workspace_id - 1, machine_id - 1, m1);
        }
        Ok(())
    }

    /// Replaces the whole note list of one port, located by its
    /// number.
    pub fn set_port_notes(
        &mut self,
        workspace_id: u32,
        machine_id: u32,
        port_number: u16,
        notes: Vec<Note>,
    ) -> (r: Result<(), StoreError>)
        requires
            old(self).wf(),
        ensures
            match r {
                Ok(()) => {
                    let wss = old(self).deep_view().workspaces;
                    let ports = wss[workspace_id - 1].machines[machine_id - 1].ports;
                    let pi = port_pos(ports, port_number);
                    &&& has_ws(wss, workspace_id)
                    &&& has_machine(wss[workspace_id - 1], machine_id)
                    &&& has_port(ports, port_number)
                    &&& final(self).deep_view() == with_port(
                        old(self).deep_view(),
                        workspace_id - 1,
                        machine_id - 1,
                        pi,
                        PortV { notes: notes.deep_view(), ..ports[pi] },
                    )
                    &&& final(self).wf()
                },
                Err(e) => {
                    &&& *final(self) == *old(self)
                    &&& locate_failure(old(self).deep_view(), workspace_id, machine_id, port_number, e)
                },
            },
    {
        let (wpos, mpos, ppos) = match self.locate_port(workspace_id, machine_id, port_number) {
            Err(e) => {
                return Err(e);
            },
            Ok(t) => t,
        };
        let ghost oldv = self.deep_view();
        let ghost notesv = notes.deep_view();
        let w = &mut self.workspaces[wpos];
        let m = &mut w.machines[mpos];
        let p = &mut m.ports[ppos];
        p.notes = notes;
        proof {
            let p0 = oldv.workspaces[workspace_id - 1].machines[machine_id - 1].ports[ppos as int];
            let p1 = PortV { notes: notesv, ..p0 };
            assert(self.deep_view() =~~= with_port(
                oldv,
                workspace_id - 1,
                machine_id - 1,
                ppos as int,
                p1,
            ));
            lemma_wf_with_port(oldv, workspace_id - 1, machine_id - 1, ppos as int, p1);
        }
        Ok(())
    }

    /// Appends one note to the note list of one port, located by its
    /// number.
    pub fn push_port_note(
        &mut self,
        workspace_id: u32,
        machine_id: u32,
        port_number: u16,
        note: Note,
    ) -> (r: Result<(), StoreError>)
        requires
            old(self).wf(),
        ensures
            match r {
                Ok(()) => {
                    let wss = old(self).deep_view().workspaces;
                    let ports = wss[workspace_id - 1].machines[machine_id - 1].ports;
                    let pi = port_pos(ports, port_number);
                    &&& has_ws(wss, workspace_id)
                    &&& has_machine(wss[workspace_id - 1], machine_id)
                    &&& has_port(ports, port_number)
                    &&& final(self).deep_view() == with_port(
                        old(self).deep_view(),
                        workspace_id - 1,
                        machine_id - 1,
                        pi,
                        PortV { notes: ports[pi].notes.push(note.deep_view()), ..ports[pi] },
                    )
                    &&& final(self).wf()
                },
                Err(e) => {
                    &&& *final(self) == *old(self)
                    &&& locate_failure(old(self).deep_view(), workspace_id, machine_id, port_number, e)
                },
            },
    {
        let (wpos, mpos, ppos) = match self.locate_port(workspace_id, machine_id, port_number) {
            Err(e) => {
                return Err(e);
            },
            Ok(t) => t,
        };
        let ghost oldv = self.deep_view();
        let ghost notev = note.deep_view();
        let w = &mut self.workspaces[wpos];
        let m = &mut w.machines[mpos];
        let p = &mut m.ports[ppos];
        p.notes.push(note);
        proof {
            let p0 = oldv.workspaces[workspace_id - 1].machines[machine_id - 1].ports[ppos as int];
            let p1 = PortV { notes: p0.notes.push(notev), ..p0 };
            assert(self.deep_view() =~~= with_port(
                oldv,
                workspace_id - 1,
                machine_id - 1,
                ppos as int,
                p1,
            ));
            lemma_wf_with_port(oldv, workspace_id - 1, machine_id - 1, ppos as int, p1);
        }
        Ok(())
    }

    /// Rewrites the content of the note at `note_index` on one port;
    /// fails when the index is out of bounds or the note there is not
    /// the variant whose content is editable, and then changes
    /// nothing.
    pub fn update_note_content(
        &mut self,
        workspace_id: u32,
        machine_id: u32,
        port_number: u16,
        note_index: usize,
        new_content: String,
    ) -> (r: Result<(), StoreError>)
        requires
            old(self).wf(),
        ensures
            match r {
                Ok(()) => {
                    let wss = old(self).deep_view().workspaces;
                    let ports = wss[workspace_id - 1].machines[machine_id - 1].ports;
                    let pi = port_pos(ports, port_number);
                    &&& has_ws(wss, workspace_id)
                    &&& has_machine(wss[workspace_id - 1], machine_id)
                    &&& has_port(ports, port_number)
                    &&& note_index < ports[pi].notes.len()
                    &&& (ports[pi].notes[note_index as int] matches NoteV::PentestObservation {
                        stage,
                        content: _,
                        timestamp,
                    } && final(self).deep_view() == with_port(
                        old(self).deep_view(),
                        workspace_id - 1,
                        machine_id - 1,
                        pi,
                        PortV {
                            notes: ports[pi].notes.update(
                                note_index as int,
                                NoteV::PentestObservation {
                                    stage,
                                    content: new_content@,
                                    timestamp,
                                },
                            ),
                            ..ports[pi]
                        },
                    ))
                    &&& final(self).wf()
                },
                Err(e) => {
                    &&& *final(self) == *old(self)
                    &&& match e {
                        StoreError::NoteIndexOutOfBounds { note_index: k, note_count: c } => {
                            let wss = old(self).deep_view().workspaces;
                            let ports = wss[workspace_id - 1].machines[machine_id - 1].ports;
                            let pi = port_pos(ports, port_number);
                            &&& k == note_index
                            &&& has_ws(wss, workspace_id)
                            &&& has_machine(wss[workspace_id - 1], machine_id)
                            &&& has_port(ports, port_number)
                            &&& c == ports[pi].notes.len()
                            &&& note_index >= c
                        },
                        StoreError::NoteNotEditable { note_index: k } => {
                            let wss = old(self).deep_view().workspaces;
                            let ports = wss[workspace_id - 1].machines[machine_id - 1].ports;
                            let pi = port_pos(ports, port_number);
                            &&& k == note_index
                            &&& has_ws(wss, workspace_id)
                            &&& has_machine(wss[workspace_id - 1], machine_id)
                            &&& has_port(ports, port_number)
                            &&& note_index < ports[pi].notes.len()
                            &&& !(ports[pi].notes[note_index as int] is PentestObservation)
                        },
                        _ => locate_failure(
                            old(self).deep_view(),
                            workspace_id,
                            machine_id,
                            port_number,
                            e,
                        ) && !(e is NoteIndexOutOfBounds) && !(e is NoteNotEditable),
                    }
                },
            },
    {
        let (wpos, mpos, ppos) = match self.locate_port(workspace_id, machine_id, port_number) {
            Err(e) => {
                return Err(e);
            },
            Ok(t) => t,
        };
        let note_count = self.workspaces[wpos].machines[mpos].ports[ppos].notes.len();
        if note_index >= note_count {
            return Err(StoreError::NoteIndexOutOfBounds { note_index, note_count });
        }
        let (stage, timestamp) = match &self.workspaces[wpos].machines[mpos].ports[ppos]
            .notes[note_index] {
            Note::PentestObservation { stage, timestamp, .. } => (stage.clone(), timestamp.clone()),
            _ => {
                return Err(StoreError::NoteNotEditable { note_index });
            },
        };
        let ghost oldv = self.deep_view();
        let w = &mut self.workspaces[wpos];
        let m = &mut w.machines[mpos];
        let p = &mut m.ports[ppos];
        let slot = &mut p.notes[note_index];
        *slot = Note::PentestObservation { stage, content: new_content, timestamp };
        proof {
            let p0 = oldv.workspaces[workspace_id - 1].machines[machine_id - 1].ports[ppos as int];
            let n1 = self.workspaces@[wpos as int].machines@[mpos as int].ports@[ppos as int]
                .notes@[note_index as int].deep_view();
            let p1 = PortV { notes: p0.notes.update(note_index as int, n1), ..p0 };
            assert(self.deep_view() =~~= with_port(
                oldv,
                workspace_id - 1,
                machine_id - 1,
                ppos as int,
                p1,
            ));
            lemma_wf_with_port(oldv, workspace_id - 1, machine_id - 1, ppos as int, p1);
        }
        Ok(())
    }
}

/// A failed chain lookup: the error names the first missing link, and
/// exactly describes why it is missing.
pub open spec fn locate_failure(
    s: StoreV,
    workspace_id: u32,
    machine_id: u32,
    port_number: u16,
    e: StoreError,
) -> bool {
    match e {
        StoreError::WorkspaceNotFound { workspace_id: w } => w == workspace_id && !has_ws(
            s.workspaces,
            workspace_id,
        ),
        StoreError::MachineNotFound { workspace_id: w, machine_id: m } => w == workspace_id && m
            == machine_id && has_ws(s.workspaces, workspace_id) && !has_machine(
            s.workspaces[workspace_id - 1],
            machine_id,
        ),
        StoreError::PortNotFound { workspace_id: w, machine_id: m, port_number: n } => {
            &&& w == workspace_id
            &&& m == machine_id
            &&& n == port_number
            &&& has_ws(s.workspaces, workspace_id)
            &&& has_machine(s.workspaces[workspace_id - 1], machine_id)
            &&& !has_port(
                s.workspaces[workspace_id - 1].machines[machine_id - 1].ports,
                port_number,
            )
        },
        _ => false,
    }
}

} // verus!
