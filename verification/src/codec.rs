//! The store's persisted document: a single JSON object holding the
//! whole hierarchy.  Each spec function below gives the canonical
//! text of one entity, and the emitters produce exactly that text, so
//! a store has one spelling on disk.

use vstd::prelude::*;

use crate::json::{
    arr_text, dec_digits, emit_lit, emit_quoted, emit_u64, joined, lemma_joined_snoc, quoted,
    string_from_chars,
};
use crate::store::{
    MachineV, Machine, Note, NoteV, Port, PortV, Store, StoreV, Workspace, WorkspaceV,
};

verus! {

/// An optional string: `null` when absent.
pub open spec fn opt_str_text(o: Option<Seq<char>>) -> Seq<char> {
    match o {
        Option::None => "null"@,
        Option::Some(s) => quoted(s),
    }
}

/// An array of strings.
pub open spec fn str_arr_text(lines: Seq<Seq<char>>) -> Seq<char> {
    arr_text(lines.map_values(|l: Seq<char>| quoted(l)))
}

/// One note, externally tagged by its variant name; the placeholder
/// variant is a bare string.
#[verifier::opaque]
pub open spec fn note_text(n: NoteV) -> Seq<char> {
    match n {
        NoteV::ScanFindings(lines) => "{\"ScanFindings\":"@ + str_arr_text(lines) + seq!['}'],
        NoteV::Credentials { name, hash, password } => "{\"Credentials\":{\"name\":"@
            + opt_str_text(name) + ",\"hash\":"@ + opt_str_text(hash) + ",\"password\":"@
            + opt_str_text(password) + "}}"@,
        NoteV::PentestObservation { stage, content, timestamp } => "{\"PentestObservation\":{\"stage\":"@
            + quoted(stage) + ",\"content\":"@ + quoted(content) + ",\"timestamp\":"@ + quoted(
            timestamp,
        ) + "}}"@,
        NoteV::Empty => "\"Empty\""@,
    }
}

/// A port's note list.
pub open spec fn notes_text(ns: Seq<NoteV>) -> Seq<char> {
    arr_text(ns.map_values(|n: NoteV| note_text(n)))
}

/// One port.
#[verifier::opaque]
pub open spec fn port_text(p: PortV) -> Seq<char> {
    "{\"service\":"@ + quoted(p.service) + ",\"application\":"@ + quoted(p.application)
        + ",\"protocol\":"@ + quoted(p.protocol) + ",\"number\":"@ + dec_digits(p.number as u64)
        + ",\"state\":"@ + quoted(p.state) + ",\"notes\":"@ + notes_text(p.notes) + seq!['}']
}

/// A machine's port list.
pub open spec fn ports_text(ps: Seq<PortV>) -> Seq<char> {
    arr_text(ps.map_values(|p: PortV| port_text(p)))
}

/// One machine.
#[verifier::opaque]
pub open spec fn machine_text(m: MachineV) -> Seq<char> {
    "{\"id\":"@ + dec_digits(m.id as u64) + ",\"hostname\":"@ + quoted(m.hostname) + ",\"icon\":"@
        + quoted(m.icon) + ",\"ip\":"@ + quoted(m.ip) + ",\"ports\":"@ + ports_text(m.ports)
        + seq!['}']
}

/// A workspace's machine list.
pub open spec fn machines_text(ms: Seq<MachineV>) -> Seq<char> {
    arr_text(ms.map_values(|m: MachineV| machine_text(m)))
}

/// One workspace.
#[verifier::opaque]
pub open spec fn workspace_text(w: WorkspaceV) -> Seq<char> {
    "{\"id\":"@ + dec_digits(w.id as u64) + ",\"name\":"@ + quoted(w.name) + ",\"ip_range\":"@
        + quoted(w.ip_range) + ",\"machines\":"@ + machines_text(w.machines) + seq!['}']
}

/// The store's workspace list.
pub open spec fn workspaces_text(wss: Seq<WorkspaceV>) -> Seq<char> {
    arr_text(wss.map_values(|w: WorkspaceV| workspace_text(w)))
}

/// The whole persisted document.
pub open spec fn store_text(s: StoreV) -> Seq<char> {
    "{\"name\":"@ + quoted(s.name) + ",\"data\":"@ + workspaces_text(s.workspaces) + seq!['}']
}

/// Appends an optional string.
pub fn emit_opt_str(o: &Option<String>, out: &mut Vec<char>)
    ensures
        final(out)@ == old(out)@ + opt_str_text(o.deep_view()),
{
    match o {
        Option::None => emit_lit("null", out),
        Option::Some(s) => emit_quoted(s.as_str(), out),
    }
}

/// Appends an array of strings.
#[verifier::loop_isolation(false)]
pub fn emit_str_array(lines: &Vec<String>, out: &mut Vec<char>)
    ensures
        final(out)@ == old(out)@ + str_arr_text(lines.deep_view()),
{
    let ghost parts = lines.deep_view().map_values(|l: Seq<char>| quoted(l));
    out.push('[');
    let ghost start = out@;
    let mut i: usize = 0;
    while i < lines.len()
        invariant
            lines@.len() == parts.len(),
            i <= parts.len(),
            out@ == start + joined(parts.take(i as int)),
        decreases parts.len() - i,
    {
        if i > 0 {
            out.push(',');
        }
        emit_quoted(lines[i].as_str(), out);
        proof {
            assert(parts[i as int] == quoted(lines.deep_view()[i as int]));
            lemma_joined_snoc(parts.take(i as int), parts[i as int]);
            assert(parts.take(i + 1) =~= parts.take(i as int).push(parts[i as int]));
            assert(out@ =~= start + joined(parts.take(i + 1)));
        }
        i += 1;
    }
    out.push(']');
    proof {
        assert(parts.take(parts.len() as int) =~= parts);
        assert(out@ =~= old(out)@ + str_arr_text(lines.deep_view()));
    }
}

/// Appends one note.
pub fn emit_note(n: &Note, out: &mut Vec<char>)
    ensures
        final(out)@ == old(out)@ + note_text(n.deep_view()),
{
    match n {
        Note::ScanFindings(lines) => {
            emit_lit("{\"ScanFindings\":", out);
            emit_str_array(lines, out);
            out.push('}');
            proof {
                reveal(note_text);
                assert(out@ =~= old(out)@ + note_text(n.deep_view()));
            }
        },
        Note::Credentials { name, hash, password } => {
            emit_lit("{\"Credentials\":{\"name\":", out);
            emit_opt_str(name, out);
            emit_lit(",\"hash\":", out);
            emit_opt_str(hash, out);
            emit_lit(",\"password\":", out);
            emit_opt_str(password, out);
            emit_lit("}}", out);
            proof {
                reveal(note_text);
                assert(out@ =~= old(out)@ + note_text(n.deep_view()));
            }
        },
        Note::PentestObservation { stage, content, timestamp } => {
            emit_lit("{\"PentestObservation\":{\"stage\":", out);
            emit_quoted(stage.as_str(), out);
            emit_lit(",\"content\":", out);
            emit_quoted(content.as_str(), out);
            emit_lit(",\"timestamp\":", out);
            emit_quoted(timestamp.as_str(), out);
            emit_lit("}}", out);
            proof {
                reveal(note_text);
                assert(out@ =~= old(out)@ + note_text(n.deep_view()));
            }
        },
        Note::Empty => {
            emit_lit("\"Empty\"", out);
            proof {
                reveal(note_text);
                assert(out@ =~= old(out)@ + note_text(n.deep_view()));
            }
        },
    }
}

/// Appends a note list.
#[verifier::loop_isolation(false)]
pub fn emit_notes(ns: &Vec<Note>, out: &mut Vec<char>)
    ensures
        final(out)@ == old(out)@ + notes_text(ns.deep_view()),
{
    let ghost parts = ns.deep_view().map_values(|n: NoteV| note_text(n));
    out.push('[');
    let ghost start = out@;
    let mut i: usize = 0;
    while i < ns.len()
        invariant
            ns@.len() == parts.len(),
            i <= parts.len(),
            out@ == start + joined(parts.take(i as int)),
        decreases parts.len() - i,
    {
        if i > 0 {
            out.push(',');
        }
        emit_note(&ns[i], out);
        proof {
            assert(parts[i as int] == note_text(ns.deep_view()[i as int]));
            lemma_joined_snoc(parts.take(i as int), parts[i as int]);
            assert(parts.take(i + 1) =~= parts.take(i as int).push(parts[i as int]));
            assert(out@ =~= start + joined(parts.take(i + 1)));
        }
        i += 1;
    }
    out.push(']');
    proof {
        assert(parts.take(parts.len() as int) =~= parts);
        assert(out@ =~= old(out)@ + notes_text(ns.deep_view()));
    }
}

/// Appends one port.
pub fn emit_port(p: &Port, out: &mut Vec<char>)
    ensures
        final(out)@ == old(out)@ + port_text(p.deep_view()),
{
    emit_lit("{\"service\":", out);
    emit_quoted(p.service.as_str(), out);
    emit_lit(",\"application\":", out);
    emit_quoted(p.application.as_str(), out);
    emit_lit(",\"protocol\":", out);
    emit_quoted(p.protocol.as_str(), out);
    emit_lit(",\"number\":", out);
    emit_u64(p.number as u64, out);
    emit_lit(",\"state\":", out);
    emit_quoted(p.state.as_str(), out);
    emit_lit(",\"notes\":", out);
    emit_notes(&p.notes, out);
    out.push('}');
    proof {
        reveal(port_text);
        assert(out@ =~= old(out)@ + port_text(p.deep_view()));
    }
}

/// Appends a port list.
#[verifier::loop_isolation(false)]
pub fn emit_ports(ps: &Vec<Port>, out: &mut Vec<char>)
    ensures
        final(out)@ == old(out)@ + ports_text(ps.deep_view()),
{
    let ghost parts = ps.deep_view().map_values(|p: PortV| port_text(p));
    out.push('[');
    let ghost start = out@;
    let mut i: usize = 0;
    while i < ps.len()
        invariant
            ps@.len() == parts.len(),
            i <= parts.len(),
            out@ == start + joined(parts.take(i as int)),
        decreases parts.len() - i,
    {
        if i > 0 {
            out.push(',');
        }
        emit_port(&ps[i], out);
        proof {
            assert(parts[i as int] == port_text(ps.deep_view()[i as int]));
            lemma_joined_snoc(parts.take(i as int), parts[i as int]);
            assert(parts.take(i + 1) =~= parts.take(i as int).push(parts[i as int]));
            assert(out@ =~= start + joined(parts.take(i + 1)));
        }
        i += 1;
    }
    out.push(']');
    proof {
        assert(parts.take(parts.len() as int) =~= parts);
        assert(out@ =~= old(out)@ + ports_text(ps.deep_view()));
    }
}

/// Appends one machine.
pub fn emit_machine(m: &Machine, out: &mut Vec<char>)
    ensures
        final(out)@ == old(out)@ + machine_text(m.deep_view()),
{
    emit_lit("{\"id\":", out);
    emit_u64(m.id as u64, out);
    emit_lit(",\"hostname\":", out);
    emit_quoted(m.hostname.as_str(), out);
    emit_lit(",\"icon\":", out);
    emit_quoted(m.icon.as_str(), out);
    emit_lit(",\"ip\":", out);
    emit_quoted(m.ip.as_str(), out);
    emit_lit(",\"ports\":", out);
    emit_ports(&m.ports, out);
    out.push('}');
    proof {
        reveal(machine_text);
        assert(out@ =~= old(out)@ + machine_text(m.deep_view()));
    }
}

/// Appends a machine list.
#[verifier::loop_isolation(false)]
pub fn emit_machines(ms: &Vec<Machine>, out: &mut Vec<char>)
    ensures
        final(out)@ == old(out)@ + machines_text(ms.deep_view()),
{
    let ghost parts = ms.deep_view().map_values(|m: MachineV| machine_text(m));
    out.push('[');
    let ghost start = out@;
    let mut i: usize = 0;
    while i < ms.len()
        invariant
            ms@.len() == parts.len(),
            i <= parts.len(),
            out@ == start + joined(parts.take(i as int)),
        decreases parts.len() - i,
    {
        if i > 0 {
            out.push(',');
        }
        emit_machine(&ms[i], out);
        proof {
            assert(parts[i as int] == machine_text(ms.deep_view()[i as int]));
            lemma_joined_snoc(parts.take(i as int), parts[i as int]);
            assert(parts.take(i + 1) =~= parts.take(i as int).push(parts[i as int]));
            assert(out@ =~= start + joined(parts.take(i + 1)));
        }
        i += 1;
    }
    out.push(']');
    proof {
        assert(parts.take(parts.len() as int) =~= parts);
        assert(out@ =~= old(out)@ + machines_text(ms.deep_view()));
    }
}

/// Appends one workspace.
pub fn emit_workspace(w: &Workspace, out: &mut Vec<char>)
    ensures
        final(out)@ == old(out)@ + workspace_text(w.deep_view()),
{
    emit_lit("{\"id\":", out);
    emit_u64(w.id as u64, out);
    emit_lit(",\"name\":", out);
    emit_quoted(w.name.as_str(), out);
    emit_lit(",\"ip_range\":", out);
    emit_quoted(w.ip_range.as_str(), out);
    emit_lit(",\"machines\":", out);
    emit_machines(&w.machines, out);
    out.push('}');
    proof {
        reveal(workspace_text);
        assert(out@ =~= old(out)@ + workspace_text(w.deep_view()));
    }
}

/// Appends the store's workspace list.
#[verifier::loop_isolation(false)]
pub fn emit_workspaces(wss: &Vec<Workspace>, out: &mut Vec<char>)
    ensures
        final(out)@ == old(out)@ + workspaces_text(wss.deep_view()),
{
    let ghost parts = wss.deep_view().map_values(|w: WorkspaceV| workspace_text(w));
    out.push('[');
    let ghost start = out@;
    let mut i: usize = 0;
    while i < wss.len()
        invariant
            wss@.len() == parts.len(),
            i <= parts.len(),
            out@ == start + joined(parts.take(i as int)),
        decreases parts.len() - i,
    {
        if i > 0 {
            out.push(',');
        }
        emit_workspace(&wss[i], out);
        proof {
            assert(parts[i as int] == workspace_text(wss.deep_view()[i as int]));
            lemma_joined_snoc(parts.take(i as int), parts[i as int]);
            assert(parts.take(i + 1) =~= parts.take(i as int).push(parts[i as int]));
            assert(out@ =~= start + joined(parts.take(i + 1)));
        }
        i += 1;
    }
    out.push(']');
    proof {
        assert(parts.take(parts.len() as int) =~= parts);
        assert(out@ =~= old(out)@ + workspaces_text(wss.deep_view()));
    }
}

impl Store {
    /// The whole store as its canonical document text: exactly
    /// `store_text` of this store's shape.
    pub fn save(&self) -> (t: String)
        ensures
            t@ == store_text(self.deep_view()),
    {
        let mut out: Vec<char> = Vec::new();
        emit_lit("{\"name\":", &mut out);
        emit_quoted(self.name.as_str(), &mut out);
        emit_lit(",\"data\":", &mut out);
        emit_workspaces(&self.workspaces, &mut out);
        out.push('}');
        proof {
            assert(out@ =~= store_text(self.deep_view()));
        }
        string_from_chars(out)
    }
}

} // verus!
