//! Laws of the store, stated over the same views the operations'
//! contracts use and proved once for every well-formed store.

use vstd::prelude::*;

use crate::ops::with_machine;
use crate::store::{
    has_port, machine_at_ok, port_pos, ports_wf, store_wf, workspace_wf, ws_at_ok, MachineV,
    PortV, StoreV, WorkspaceV,
};

verus! {

/// Identifier uniqueness: in a well-formed store, workspace
/// identifiers strictly increase along insertion order — so they are
/// pairwise distinct — and the identifier that adding a workspace
/// assigns next (`count + 1`) is carried by no existing workspace.
pub proof fn lemma_workspace_ids_unique(s: StoreV)
    requires
        store_wf(s),
    ensures
        (forall|i: int, j: int|
            0 <= i < j < s.workspaces.len() ==> s.workspaces[i].id < s.workspaces[j].id),
        (forall|i: int|
            0 <= i < s.workspaces.len() ==> s.workspaces[i].id != s.workspaces.len() + 1),
{
    assert forall|i: int, j: int|
        0 <= i < j < s.workspaces.len() implies s.workspaces[i].id < s.workspaces[j].id by {
        assert(ws_at_ok(s.workspaces, i));
        assert(ws_at_ok(s.workspaces, j));
    }
    assert forall|i: int|
        0 <= i < s.workspaces.len() implies s.workspaces[i].id != s.workspaces.len() + 1 by {
        assert(ws_at_ok(s.workspaces, i));
    }
}

/// The same, one level down: machine identifiers within one
/// well-formed workspace strictly increase and the next sequential
/// identifier is fresh.
pub proof fn lemma_machine_ids_unique(w: WorkspaceV)
    requires
        workspace_wf(w),
    ensures
        (forall|i: int, j: int|
            0 <= i < j < w.machines.len() ==> w.machines[i].id < w.machines[j].id),
        (forall|i: int| 0 <= i < w.machines.len() ==> w.machines[i].id != w.machines.len() + 1),
{
    assert forall|i: int, j: int|
        0 <= i < j < w.machines.len() implies w.machines[i].id < w.machines[j].id by {
        assert(machine_at_ok(w.machines, i));
        assert(machine_at_ok(w.machines, j));
    }
    assert forall|i: int|
        0 <= i < w.machines.len() implies w.machines[i].id != w.machines.len() + 1 by {
        assert(machine_at_ok(w.machines, i));
    }
}

/// Lookup correctness: when a machine's port numbers are unique, a
/// port number addresses exactly one position, the one `port_pos`
/// names; a port is found under a number if and only if it is the
/// port at that position.
pub proof fn lemma_port_lookup_unique(ports: Seq<PortV>, number: u16)
    requires
        ports_wf(ports),
    ensures
        has_port(ports, number) ==> {
            let i = port_pos(ports, number);
            &&& 0 <= i < ports.len()
            &&& ports[i].number == number
            &&& (forall|j: int| 0 <= j < ports.len() && ports[j].number == number ==> j == i)
        },
{
    if has_port(ports, number) {
        let i = port_pos(ports, number);
        assert(0 <= i < ports.len() && ports[i].number == number);
        assert forall|j: int|
            0 <= j < ports.len() && ports[j].number == number implies j == i by {
            if j < i {
                assert(ports[j].number != ports[i].number);
            } else if i < j {
                assert(ports[i].number != ports[j].number);
            }
        }
    }
}

/// Scan replacement semantics: replacing a machine's port list and
/// then replacing it again leaves exactly the second list — the store
/// is the one the second replacement alone would have produced, with
/// nothing merged from the first.
pub proof fn lemma_scan_replacement(
    s: StoreV,
    wi: int,
    mi: int,
    ports1: Seq<PortV>,
    ports2: Seq<PortV>,
)
    requires
        0 <= wi < s.workspaces.len(),
        0 <= mi < s.workspaces[wi].machines.len(),
    ensures
        ({
            let m0 = s.workspaces[wi].machines[mi];
            let once = with_machine(s, wi, mi, MachineV { ports: ports1, ..m0 });
            let twice = with_machine(
                once,
                wi,
                mi,
                MachineV { ports: ports2, ..once.workspaces[wi].machines[mi] },
            );
            twice == with_machine(s, wi, mi, MachineV { ports: ports2, ..m0 })
        }),
{
    let m0 = s.workspaces[wi].machines[mi];
    let once = with_machine(s, wi, mi, MachineV { ports: ports1, ..m0 });
    let twice = with_machine(
        once,
        wi,
        mi,
        MachineV { ports: ports2, ..once.workspaces[wi].machines[mi] },
    );
    assert(once.workspaces[wi].machines[mi] == (MachineV { ports: ports1, ..m0 }));
    assert(twice =~~= with_machine(s, wi, mi, MachineV { ports: ports2, ..m0 }));
}

} // verus!
