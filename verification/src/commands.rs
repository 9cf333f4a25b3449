//! The command surface's compute: read-only snapshots serialized for
//! the front-end, and the exact request texts sent to the analysis
//! collaborator.  The surrounding process performs the lock and the
//! transport; everything that decides what those texts say is here.

use vstd::prelude::*;

use crate::codec::{machines_text, ports_text, workspace_text, workspaces_text};
use crate::errors::StoreError;
use crate::json::{
    dec_digits, emit_lit, emit_quoted, emit_u64, quoted, string_from_chars,
};
use crate::store::{
    has_machine, has_port, has_ws, lemma_wf_machine_positions, lemma_wf_ws_positions,
    machine_at_ok, port_pos, ws_at_ok, NoteV, PortV, Store, StoreV,
};

verus! {

/// One scan line as the context lists it: `- <line>`, newline-ended.
pub open spec fn dash_lines(lines: Seq<Seq<char>>) -> Seq<char>
    decreases lines.len(),
{
    if lines.len() == 0 {
        Seq::empty()
    } else {
        "- "@ + lines[0] + "\n"@ + dash_lines(lines.drop_first())
    }
}

/// One optional credential field as the context lists it.
pub open spec fn cred_line(prefix: Seq<char>, field: Option<Seq<char>>) -> Seq<char> {
    match field {
        Option::None => Seq::empty(),
        Option::Some(v) => prefix + v + "\n"@,
    }
}

/// What one note contributes to the question context.
pub open spec fn note_context(n: NoteV) -> Seq<char> {
    match n {
        NoteV::ScanFindings(lines) => "Nmap Scan Results:\n"@ + dash_lines(lines),
        NoteV::Credentials { name, hash, password } => "Credentials Found:\n"@ + cred_line(
            "- Username: "@,
            name,
        ) + cred_line("- Hash: "@, hash) + cred_line("- Password: "@, password),
        NoteV::PentestObservation { stage, content, timestamp } => "Pentest Note ("@ + stage
            + " - "@ + timestamp + "):\n"@ + content + "\n"@,
        NoteV::Empty => Seq::empty(),
    }
}

/// What a whole note list contributes, in order.
pub open spec fn notes_context(ns: Seq<NoteV>) -> Seq<char>
    decreases ns.len(),
{
    if ns.len() == 0 {
        Seq::empty()
    } else {
        note_context(ns[0]) + notes_context(ns.drop_first())
    }
}

/// What the addressed port contributes to the question context.
pub open spec fn port_context(p: PortV) -> Seq<char> {
    "Port "@ + dec_digits(p.number as u64) + "/"@ + p.protocol + " - "@ + p.service + " ("@
        + p.application + ")\n"@ + notes_context(p.notes)
}

/// The stored context for a question: workspace line, then machine
/// line, then port section, each only as far as the identifier chain
/// resolves.
pub open spec fn question_context(
    s: StoreV,
    workspace_id: u32,
    machine_id: Option<u32>,
    port_number: Option<u16>,
) -> Seq<char> {
    if !has_ws(s.workspaces, workspace_id) {
        Seq::empty()
    } else {
        let w = s.workspaces[workspace_id - 1];
        "Workspace: "@ + w.name + "\n"@ + match machine_id {
            Option::None => Seq::empty(),
            Option::Some(mid) => if !has_machine(w, mid) {
                Seq::empty()
            } else {
                let m = w.machines[mid - 1];
                "Machine: "@ + m.hostname + " ("@ + m.ip + ")\n"@ + match port_number {
                    Option::None => Seq::empty(),
                    Option::Some(n) => if has_port(m.ports, n) {
                        port_context(m.ports[port_pos(m.ports, n)])
                    } else {
                        Seq::empty()
                    },
                }
            },
        }
    }
}

/// Appending a line extends its dashed listing.
proof fn lemma_dash_lines_snoc(lines: Seq<Seq<char>>, last: Seq<char>)
    ensures
        dash_lines(lines.push(last)) == dash_lines(lines) + "- "@ + last + "\n"@,
    decreases lines.len(),
{
    let whole = lines.push(last);
    if lines.len() == 0 {
        assert(whole[0] == last);
        assert(whole.drop_first() =~= Seq::<Seq<char>>::empty());
        assert(dash_lines(Seq::<Seq<char>>::empty()) == Seq::<char>::empty());
        assert(dash_lines(whole) == "- "@ + whole[0] + "\n"@ + dash_lines(whole.drop_first()));
        assert(dash_lines(whole) =~= dash_lines(lines) + "- "@ + last + "\n"@);
    } else {
        assert(whole[0] == lines[0]);
        assert(whole.drop_first() =~= lines.drop_first().push(last));
        lemma_dash_lines_snoc(lines.drop_first(), last);
        assert(dash_lines(whole) =~= dash_lines(lines) + "- "@ + last + "\n"@);
    }
}

/// Appending a note extends the notes' context.
proof fn lemma_notes_context_snoc(ns: Seq<NoteV>, last: NoteV)
    ensures
        notes_context(ns.push(last)) == notes_context(ns) + note_context(last),
    decreases ns.len(),
{
    let whole = ns.push(last);
    if ns.len() == 0 {
        assert(whole[0] == last);
        assert(whole.drop_first() =~= Seq::<NoteV>::empty());
        assert(notes_context(Seq::<NoteV>::empty()) == Seq::<char>::empty());
        assert(notes_context(whole) == note_context(whole[0]) + notes_context(whole.drop_first()));
        assert(notes_context(whole) =~= notes_context(ns) + note_context(last));
    } else {
        assert(whole[0] == ns[0]);
        assert(whole.drop_first() =~= ns.drop_first().push(last));
        lemma_notes_context_snoc(ns.drop_first(), last);
        assert(notes_context(whole) =~= notes_context(ns) + note_context(last));
    }
}

/// Appends the dashed listing of the lines.
#[verifier::loop_isolation(false)]
fn emit_dash_lines(lines: &Vec<String>, out: &mut Vec<char>)
    ensures
        final(out)@ == old(out)@ + dash_lines(lines.deep_view()),
{
    let mut i: usize = 0;
    while i < lines.len()
        invariant
            i <= lines@.len(),
            out@ == old(out)@ + dash_lines(lines.deep_view().take(i as int)),
        decreases lines@.len() - i,
    {
        emit_lit("- ", out);
        emit_lit(lines[i].as_str(), out);
        emit_lit("\n", out);
        proof {
            lemma_dash_lines_snoc(lines.deep_view().take(i as int), lines.deep_view()[i as int]);
            assert(lines.deep_view().take(i + 1) =~= lines.deep_view().take(i as int).push(
                lines.deep_view()[i as int],
            ));
            assert(out@ =~= old(out)@ + dash_lines(lines.deep_view().take(i + 1)));
        }
        i += 1;
    }
    proof {
        assert(lines.deep_view().take(lines@.len() as int) =~= lines.deep_view());
    }
}

/// Appends one optional credential field's line.
fn emit_cred_line(prefix: &str, field: &Option<String>, out: &mut Vec<char>)
    ensures
        final(out)@ == old(out)@ + cred_line(prefix@, field.deep_view()),
{
    match field {
        Option::None => (),
        Option::Some(v) => {
            emit_lit(prefix, out);
            emit_lit(v.as_str(), out);
            emit_lit("\n", out);
            proof {
                assert(out@ =~= old(out)@ + cred_line(prefix@, field.deep_view()));
            }
        },
    }
}

/// Appends one note's contribution to the context.
fn emit_note_context(n: &crate::store::Note, out: &mut Vec<char>)
    ensures
        final(out)@ == old(out)@ + note_context(n.deep_view()),
{
    match n {
        crate::store::Note::ScanFindings(lines) => {
            emit_lit("Nmap Scan Results:\n", out);
            emit_dash_lines(lines, out);
            proof {
                assert(out@ =~= old(out)@ + note_context(n.deep_view()));
            }
        },
        crate::store::Note::Credentials { name, hash, password } => {
            emit_lit("Credentials Found:\n", out);
            emit_cred_line("- Username: ", name, out);
            emit_cred_line("- Hash: ", hash, out);
            emit_cred_line("- Password: ", password, out);
            proof {
                assert(out@ =~= old(out)@ + note_context(n.deep_view()));
            }
        },
        crate::store::Note::PentestObservation { stage, content, timestamp } => {
            emit_lit("Pentest Note (", out);
            emit_lit(stage.as_str(), out);
            emit_lit(" - ", out);
            emit_lit(timestamp.as_str(), out);
            emit_lit("):\n", out);
            emit_lit(content.as_str(), out);
            emit_lit("\n", out);
            proof {
                assert(out@ =~= old(out)@ + note_context(n.deep_view()));
            }
        },
        crate::store::Note::Empty => (),
    }
}

/// Appends every note's contribution, in order.
#[verifier::loop_isolation(false)]
fn emit_notes_context(ns: &Vec<crate::store::Note>, out: &mut Vec<char>)
    ensures
        final(out)@ == old(out)@ + notes_context(ns.deep_view()),
{
    let mut i: usize = 0;
    while i < ns.len()
        invariant
            i <= ns@.len(),
            out@ == old(out)@ + notes_context(ns.deep_view().take(i as int)),
        decreases ns@.len() - i,
    {
        emit_note_context(&ns[i], out);
        proof {
            lemma_notes_context_snoc(ns.deep_view().take(i as int), ns.deep_view()[i as int]);
            assert(ns.deep_view().take(i + 1) =~= ns.deep_view().take(i as int).push(
                ns.deep_view()[i as int],
            ));
            assert(out@ =~= old(out)@ + notes_context(ns.deep_view().take(i + 1)));
        }
        i += 1;
    }
    proof {
        assert(ns.deep_view().take(ns@.len() as int) =~= ns.deep_view());
    }
}

impl Store {
    /// All workspaces, serialized as the front-end snapshot.
    pub fn workspaces_json(&self) -> (t: String)
        ensures
            t@ == workspaces_text(self.deep_view().workspaces),
    {
        let mut out: Vec<char> = Vec::new();
        crate::codec::emit_workspaces(&self.workspaces, &mut out);
        string_from_chars(out)
    }

    /// One workspace's machines, serialized, or the error naming the
    /// missing workspace.
    pub fn machines_json(&self, workspace_id: u32) -> (r: Result<String, StoreError>)
        requires
            self.wf(),
        ensures
            match r {
                Ok(t) => has_ws(self.deep_view().workspaces, workspace_id) && t@ == machines_text(
                    self.deep_view().workspaces[workspace_id - 1].machines,
                ),
                Err(e) => !has_ws(self.deep_view().workspaces, workspace_id) && e == (
                StoreError::WorkspaceNotFound { workspace_id }),
            },
    {
        match self.find_workspace(workspace_id) {
            None => Err(StoreError::WorkspaceNotFound { workspace_id }),
            Some(w) => {
                proof {
                    lemma_wf_ws_positions(self.deep_view(), workspace_id);
                }
                let mut out: Vec<char> = Vec::new();
                crate::codec::emit_machines(&w.machines, &mut out);
                Ok(string_from_chars(out))
            },
        }
    }

    /// One machine's ports, serialized, or the error naming the first
    /// missing link of the chain.
    pub fn ports_json(&self, workspace_id: u32, machine_id: u32) -> (r: Result<String, StoreError>)
        requires
            self.wf(),
        ensures
            match r {
                Ok(t) => has_ws(self.deep_view().workspaces, workspace_id) && has_machine(
                    self.deep_view().workspaces[workspace_id - 1],
                    machine_id,
                ) && t@ == ports_text(
                    self.deep_view().workspaces[workspace_id - 1].machines[machine_id - 1].ports,
                ),
                Err(e) => match e {
                    StoreError::WorkspaceNotFound { workspace_id: w } => w == workspace_id
                        && !has_ws(self.deep_view().workspaces, workspace_id),
                    StoreError::MachineNotFound { workspace_id: w, machine_id: m } => w
                        == workspace_id && m == machine_id && has_ws(
                        self.deep_view().workspaces,
                        workspace_id,
                    ) && !has_machine(
                        self.deep_view().workspaces[workspace_id - 1],
                        machine_id,
                    ),
                    _ => false,
                },
            },
    {
        proof {
            lemma_wf_ws_positions(self.deep_view(), workspace_id);
        }
        let w = match self.find_workspace(workspace_id) {
            None => {
                return Err(StoreError::WorkspaceNotFound { workspace_id });
            },
            Some(w) => w,
        };
        proof {
            lemma_wf_machine_positions(self.deep_view().workspaces[workspace_id - 1], machine_id);
        }
        match w.find_machine(machine_id) {
            None => Err(StoreError::MachineNotFound { workspace_id, machine_id }),
            Some(m) => {
                let mut out: Vec<char> = Vec::new();
                crate::codec::emit_ports(&m.ports, &mut out);
                Ok(string_from_chars(out))
            },
        }
    }

    /// One workspace, serialized, or the error naming it.
    pub fn workspace_json(&self, workspace_id: u32) -> (r: Result<String, StoreError>)
        requires
            self.wf(),
        ensures
            match r {
                Ok(t) => has_ws(self.deep_view().workspaces, workspace_id) && t@
                    == workspace_text(self.deep_view().workspaces[workspace_id - 1]),
                Err(e) => !has_ws(self.deep_view().workspaces, workspace_id) && e == (
                StoreError::WorkspaceNotFound { workspace_id }),
            },
    {
        match self.find_workspace(workspace_id) {
            None => Err(StoreError::WorkspaceNotFound { workspace_id }),
            Some(w) => {
                proof {
                    lemma_wf_ws_positions(self.deep_view(), workspace_id);
                }
                let mut out: Vec<char> = Vec::new();
                crate::codec::emit_workspace(w, &mut out);
                Ok(string_from_chars(out))
            },
        }
    }

    /// The exact stored context a question about this scope carries:
    /// workspace, machine and port details as far as the identifier
    /// chain resolves, with every note of the addressed port.
    pub fn question_context(
        &self,
        workspace_id: u32,
        machine_id: Option<u32>,
        port_number: Option<u16>,
    ) -> (t: String)
        requires
            self.wf(),
        ensures
            t@ == question_context(self.deep_view(), workspace_id, machine_id, port_number),
    {
        let mut out: Vec<char> = Vec::new();
        let w = match self.find_workspace(workspace_id) {
            None => {
                return string_from_chars(out);
            },
            Some(w) => w,
        };
        proof {
            lemma_wf_ws_positions(self.deep_view(), workspace_id);
        }
        emit_lit("Workspace: ", &mut out);
        emit_lit(w.name.as_str(), &mut out);
        emit_lit("\n", &mut out);
        let mid = match machine_id {
            None => {
                return string_from_chars(out);
            },
            Some(m) => m,
        };
        let m = match w.find_machine(mid) {
            None => {
                return string_from_chars(out);
            },
            Some(m) => m,
        };
        proof {
            lemma_wf_machine_positions(self.deep_view().workspaces[workspace_id - 1], mid);
        }
        emit_lit("Machine: ", &mut out);
        emit_lit(m.hostname.as_str(), &mut out);
        emit_lit(" (", &mut out);
        emit_lit(m.ip.as_str(), &mut out);
        emit_lit(")\n", &mut out);
        let n = match port_number {
            None => {
                return string_from_chars(out);
            },
            Some(n) => n,
        };
        proof {
            assert(ws_at_ok(self.deep_view().workspaces, workspace_id - 1));
            assert(machine_at_ok(self.deep_view().workspaces[workspace_id - 1].machines, mid - 1));
        }
        let p = match m.find_port(n) {
            None => {
                return string_from_chars(out);
            },
            Some(p) => p,
        };
        emit_lit("Port ", &mut out);
        emit_u64(p.number as u64, &mut out);
        emit_lit("/", &mut out);
        emit_lit(p.protocol.as_str(), &mut out);
        emit_lit(" - ", &mut out);
        emit_lit(p.service.as_str(), &mut out);
        emit_lit(" (", &mut out);
        emit_lit(p.application.as_str(), &mut out);
        emit_lit(")\n", &mut out);
        emit_notes_context(&p.notes, &mut out);
        string_from_chars(out)
    }
}

/// The full prompt a question is sent with: the analyst preamble,
/// the stored context, and the question itself.
pub open spec fn full_question(context: Seq<char>, question: Seq<char>) -> Seq<char> {
    "You are an expert penetration tester and security analyst. Focus on identifying vulnerabilities, potential attack vectors, and security implications. Be direct and concise. Provide practical security insights based on this context:\n\n"@
        + context + "\n\nQuestion: "@ + question
}

/// The JSON body posted to the collaborator for a question.
pub open spec fn question_payload(context: Seq<char>, question: Seq<char>) -> Seq<char> {
    "{\"question\":"@ + quoted(full_question(context, question)) + seq!['}']
}

/// Builds the exact JSON body posted to the collaborator for a
/// question asked in the given stored context.
pub fn build_question_payload(context: &str, question: &str) -> (t: String)
    ensures
        t@ == question_payload(context@, question@),
{
    let mut q: Vec<char> = Vec::new();
    emit_lit(
        "You are an expert penetration tester and security analyst. Focus on identifying vulnerabilities, potential attack vectors, and security implications. Be direct and concise. Provide practical security insights based on this context:\n\n",
        &mut q,
    );
    emit_lit(context, &mut q);
    emit_lit("\n\nQuestion: ", &mut q);
    emit_lit(question, &mut q);
    let full = string_from_chars(q);
    let mut out: Vec<char> = Vec::new();
    emit_lit("{\"question\":", &mut out);
    emit_quoted(full.as_str(), &mut out);
    out.push('}');
    proof {
        assert(out@ =~= question_payload(context@, question@));
    }
    string_from_chars(out)
}


/// Scan-finding lines joined by newlines, as the analysis prompt
/// quotes them.
pub open spec fn nl_joined(lines: Seq<Seq<char>>) -> Seq<char>
    decreases lines.len(),
{
    if lines.len() == 0 {
        Seq::empty()
    } else if lines.len() == 1 {
        lines[0]
    } else {
        lines[0] + "\n"@ + nl_joined(lines.drop_first())
    }
}

/// The scan-finding blocks of a note list: one newline-joined block
/// per scan-findings note, other variants contributing nothing.
pub open spec fn scan_blocks(ns: Seq<NoteV>) -> Seq<Seq<char>>
    decreases ns.len(),
{
    if ns.len() == 0 {
        Seq::empty()
    } else {
        match ns[0] {
            NoteV::ScanFindings(d) => seq![nl_joined(d)] + scan_blocks(ns.drop_first()),
            _ => scan_blocks(ns.drop_first()),
        }
    }
}

/// The analysis context for one port: its fields and every
/// scan-finding block.
pub open spec fn analysis_text(p: PortV) -> Seq<char> {
    "Analyze this port for security vulnerabilities:\nService: "@ + p.service + "\nPort: "@
        + dec_digits(p.number as u64) + "\nProtocol: "@ + p.protocol + "\nState: "@ + p.state
        + "\nApplication: "@ + p.application + "\n\nScan Results:\n"@ + nl_joined(
        scan_blocks(p.notes),
    )
}

/// The full prompt posted to analyze one port.
pub open spec fn analysis_question(p: PortV) -> Seq<char> {
    "Security analysis of port scan.\nFormat in Markdown:\n1. Critical Vulnerabilities\n2. Exploitation Methods\n3. Security Recommendations\n\n"@
        + "{\"text\":"@ + quoted(analysis_text(p)) + seq!['}']
}

/// The JSON body posted to the collaborator to analyze one port.
pub open spec fn analysis_payload(p: PortV) -> Seq<char> {
    "{\"question\":"@ + quoted(analysis_question(p)) + seq!['}']
}

/// Joining one more block appends a newline and the block.
proof fn lemma_nl_joined_snoc(parts: Seq<Seq<char>>, last: Seq<char>)
    ensures
        nl_joined(parts.push(last)) == if parts.len() == 0 {
            last
        } else {
            nl_joined(parts) + "\n"@ + last
        },
    decreases parts.len(),
{
    let whole = parts.push(last);
    if parts.len() == 0 {
        assert(whole[0] == last);
        assert(nl_joined(whole) =~= last);
    } else {
        assert(whole[0] == parts[0]);
        assert(whole.drop_first() =~= parts.drop_first().push(last));
        lemma_nl_joined_snoc(parts.drop_first(), last);
        assert(nl_joined(whole) =~= nl_joined(parts) + "\n"@ + last);
    }
}

/// Appending a note appends its block, if it has one.
proof fn lemma_scan_blocks_snoc(ns: Seq<NoteV>, last: NoteV)
    ensures
        scan_blocks(ns.push(last)) == scan_blocks(ns) + (match last {
            NoteV::ScanFindings(d) => seq![nl_joined(d)],
            _ => Seq::<Seq<char>>::empty(),
        }),
    decreases ns.len(),
{
    let whole = ns.push(last);
    let tail = (match last {
        NoteV::ScanFindings(d) => seq![nl_joined(d)],
        _ => Seq::<Seq<char>>::empty(),
    });
    if ns.len() == 0 {
        assert(whole[0] == last);
        assert(whole.drop_first() =~= Seq::<NoteV>::empty());
        assert(scan_blocks(Seq::<NoteV>::empty()) == Seq::<Seq<char>>::empty());
        assert(scan_blocks(whole) =~= scan_blocks(ns) + tail);
    } else {
        assert(whole[0] == ns[0]);
        assert(whole.drop_first() =~= ns.drop_first().push(last));
        lemma_scan_blocks_snoc(ns.drop_first(), last);
        assert(scan_blocks(whole) =~= scan_blocks(ns) + tail);
    }
}

/// Appends the lines joined by newlines.
#[verifier::loop_isolation(false)]
fn emit_nl_joined(lines: &Vec<String>, out: &mut Vec<char>)
    ensures
        final(out)@ == old(out)@ + nl_joined(lines.deep_view()),
{
    let mut i: usize = 0;
    while i < lines.len()
        invariant
            i <= lines@.len(),
            out@ == old(out)@ + nl_joined(lines.deep_view().take(i as int)),
        decreases lines@.len() - i,
    {
        if i > 0 {
            out.push('\n');
            proof {
                reveal_strlit("\n");
            }
        }
        emit_lit(lines[i].as_str(), out);
        proof {
            reveal_strlit("\n");
            lemma_nl_joined_snoc(lines.deep_view().take(i as int), lines.deep_view()[i as int]);
            assert(lines.deep_view().take(i + 1) =~= lines.deep_view().take(i as int).push(
                lines.deep_view()[i as int],
            ));
            assert(out@ =~= old(out)@ + nl_joined(lines.deep_view().take(i + 1)));
        }
        i += 1;
    }
    proof {
        assert(lines.deep_view().take(lines@.len() as int) =~= lines.deep_view());
    }
}

/// Appends every scan-finding block, newline-separated.
#[verifier::loop_isolation(false)]
fn emit_scan_blocks(ns: &Vec<crate::store::Note>, out: &mut Vec<char>)
    ensures
        final(out)@ == old(out)@ + nl_joined(scan_blocks(ns.deep_view())),
{
    let mut any = false;
    let mut i: usize = 0;
    while i < ns.len()
        invariant
            i <= ns@.len(),
            any == (scan_blocks(ns.deep_view().take(i as int)).len() > 0),
            out@ == old(out)@ + nl_joined(scan_blocks(ns.deep_view().take(i as int))),
        decreases ns@.len() - i,
    {
        proof {
            lemma_scan_blocks_snoc(ns.deep_view().take(i as int), ns.deep_view()[i as int]);
            assert(ns.deep_view().take(i + 1) =~= ns.deep_view().take(i as int).push(
                ns.deep_view()[i as int],
            ));
        }
        match &ns[i] {
            crate::store::Note::ScanFindings(lines) => {
                if any {
                    out.push('\n');
                    proof {
                        reveal_strlit("\n");
                    }
                }
                emit_nl_joined(lines, out);
                proof {
                    reveal_strlit("\n");
                    let blocks0 = scan_blocks(ns.deep_view().take(i as int));
                    lemma_nl_joined_snoc(blocks0, nl_joined(lines.deep_view()));
                    assert(scan_blocks(ns.deep_view().take(i + 1)) =~= blocks0.push(
                        nl_joined(lines.deep_view()),
                    ));
                    assert(out@ =~= old(out)@ + nl_joined(scan_blocks(ns.deep_view().take(i + 1))));
                }
                any = true;
            },
            _ => {
                proof {
                    assert(scan_blocks(ns.deep_view().take(i + 1)) =~= scan_blocks(
                        ns.deep_view().take(i as int),
                    ));
                }
            },
        }
        i += 1;
    }
    proof {
        assert(ns.deep_view().take(ns@.len() as int) =~= ns.deep_view());
    }
}

impl Store {
    /// Builds the exact JSON body posted to the collaborator to
    /// analyze one port, or the error naming the first missing link
    /// of the identifier chain.
    pub fn build_analysis_payload(&self, workspace_id: u32, machine_id: u32, port_number: u16) -> (r:
        Result<String, StoreError>)
        requires
            self.wf(),
        ensures
            match r {
                Ok(t) => {
                    let wss = self.deep_view().workspaces;
                    let ports = wss[workspace_id - 1].machines[machine_id - 1].ports;
                    &&& has_ws(wss, workspace_id)
                    &&& has_machine(wss[workspace_id - 1], machine_id)
                    &&& has_port(ports, port_number)
                    &&& t@ == analysis_payload(ports[port_pos(ports, port_number)])
                },
                Err(e) => crate::ops::locate_failure(
                    self.deep_view(),
                    workspace_id,
                    machine_id,
                    port_number,
                    e,
                ),
            },
    {
        proof {
            lemma_wf_ws_positions(self.deep_view(), workspace_id);
        }
        let w = match self.find_workspace(workspace_id) {
            None => {
                return Err(StoreError::WorkspaceNotFound { workspace_id });
            },
            Some(w) => w,
        };
        proof {
            lemma_wf_machine_positions(self.deep_view().workspaces[workspace_id - 1], machine_id);
        }
        let m = match w.find_machine(machine_id) {
            None => {
                return Err(StoreError::MachineNotFound { workspace_id, machine_id });
            },
            Some(m) => m,
        };
        proof {
            assert(ws_at_ok(self.deep_view().workspaces, workspace_id - 1));
            assert(machine_at_ok(
                self.deep_view().workspaces[workspace_id - 1].machines,
                machine_id - 1,
            ));
        }
        let p = match m.find_port(port_number) {
            None => {
                return Err(
                    StoreError::PortNotFound { workspace_id, machine_id, port_number },
                );
            },
            Some(p) => p,
        };
        let mut text: Vec<char> = Vec::new();
        emit_lit("Analyze this port for security vulnerabilities:\nService: ", &mut text);
        emit_lit(p.service.as_str(), &mut text);
        emit_lit("\nPort: ", &mut text);
        emit_u64(p.number as u64, &mut text);
        emit_lit("\nProtocol: ", &mut text);
        emit_lit(p.protocol.as_str(), &mut text);
        emit_lit("\nState: ", &mut text);
        emit_lit(p.state.as_str(), &mut text);
        emit_lit("\nApplication: ", &mut text);
        emit_lit(p.application.as_str(), &mut text);
        emit_lit("\n\nScan Results:\n", &mut text);
        emit_scan_blocks(&p.notes, &mut text);
        let text_s = string_from_chars(text);
        let mut q: Vec<char> = Vec::new();
        emit_lit(
            "Security analysis of port scan.\nFormat in Markdown:\n1. Critical Vulnerabilities\n2. Exploitation Methods\n3. Security Recommendations\n\n",
            &mut q,
        );
        emit_lit("{\"text\":", &mut q);
        emit_quoted(text_s.as_str(), &mut q);
        q.push('}');
        let q_s = string_from_chars(q);
        proof {
            assert(q_s@ =~= analysis_question(p.deep_view()));
        }
        let mut out: Vec<char> = Vec::new();
        emit_lit("{\"question\":", &mut out);
        emit_quoted(q_s.as_str(), &mut out);
        out.push('}');
        proof {
            assert(out@ =~= analysis_payload(p.deep_view()));
        }
        Ok(string_from_chars(out))
    }
}


impl Store {
    /// One machine, serialized, or the error naming the first missing
    /// link of the chain.
    pub fn machine_json(&self, workspace_id: u32, machine_id: u32) -> (r: Result<
        String,
        StoreError,
    >)
        requires
            self.wf(),
        ensures
            match r {
                Ok(t) => {
                    let wss = self.deep_view().workspaces;
                    &&& has_ws(wss, workspace_id)
                    &&& has_machine(wss[workspace_id - 1], machine_id)
                    &&& t@ == crate::codec::machine_text(
                        wss[workspace_id - 1].machines[machine_id - 1],
                    )
                },
                Err(e) => match e {
                    StoreError::WorkspaceNotFound { workspace_id: w } => w == workspace_id
                        && !has_ws(self.deep_view().workspaces, workspace_id),
                    StoreError::MachineNotFound { workspace_id: w, machine_id: m } => w
                        == workspace_id && m == machine_id && has_ws(
                        self.deep_view().workspaces,
                        workspace_id,
                    ) && !has_machine(
                        self.deep_view().workspaces[workspace_id - 1],
                        machine_id,
                    ),
                    _ => false,
                },
            },
    {
        proof {
            lemma_wf_ws_positions(self.deep_view(), workspace_id);
        }
        let w = match self.find_workspace(workspace_id) {
            None => {
                return Err(StoreError::WorkspaceNotFound { workspace_id });
            },
            Some(w) => w,
        };
        proof {
            lemma_wf_machine_positions(self.deep_view().workspaces[workspace_id - 1], machine_id);
        }
        let m = match w.find_machine(machine_id) {
            None => {
                return Err(StoreError::MachineNotFound { workspace_id, machine_id });
            },
            Some(m) => m,
        };
        let mut out: Vec<char> = Vec::new();
        crate::codec::emit_machine(m, &mut out);
        Ok(string_from_chars(out))
    }

    /// One port, serialized, or the error naming the first missing
    /// link of the chain.
    pub fn port_json(&self, workspace_id: u32, machine_id: u32, port_number: u16) -> (r: Result<
        String,
        StoreError,
    >)
        requires
            self.wf(),
        ensures
            match r {
                Ok(t) => {
                    let wss = self.deep_view().workspaces;
                    let ports = wss[workspace_id - 1].machines[machine_id - 1].ports;
                    &&& has_ws(wss, workspace_id)
                    &&& has_machine(wss[workspace_id - 1], machine_id)
                    &&& has_port(ports, port_number)
                    &&& t@ == crate::codec::port_text(ports[port_pos(ports, port_number)])
                },
                Err(e) => crate::ops::locate_failure(
                    self.deep_view(),
                    workspace_id,
                    machine_id,
                    port_number,
                    e,
                ),
            },
    {
        proof {
            lemma_wf_ws_positions(self.deep_view(), workspace_id);
        }
        let w = match self.find_workspace(workspace_id) {
            None => {
                return Err(StoreError::WorkspaceNotFound { workspace_id });
            },
            Some(w) => w,
        };
        proof {
            lemma_wf_machine_positions(self.deep_view().workspaces[workspace_id - 1], machine_id);
        }
        let m = match w.find_machine(machine_id) {
            None => {
                return Err(StoreError::MachineNotFound { workspace_id, machine_id });
            },
            Some(m) => m,
        };
        proof {
            assert(ws_at_ok(self.deep_view().workspaces, workspace_id - 1));
            assert(machine_at_ok(
                self.deep_view().workspaces[workspace_id - 1].machines,
                machine_id - 1,
            ));
        }
        let p = match m.find_port(port_number) {
            None => {
                return Err(
                    StoreError::PortNotFound { workspace_id, machine_id, port_number },
                );
            },
            Some(p) => p,
        };
        let mut out: Vec<char> = Vec::new();
        crate::codec::emit_port(p, &mut out);
        Ok(string_from_chars(out))
    }
}


/// The note an analysis answer is stored as: a scan-findings note
/// holding a marker line and the collaborator's answer.
pub fn analysis_note(analysis: String) -> (n: crate::store::Note)
    ensures
        n.deep_view() == NoteV::ScanFindings(
            seq!["=== AI Security Analysis ==="@, analysis@],
        ),
{
    let mut lines: Vec<String> = Vec::new();
    lines.push(String::from_str("=== AI Security Analysis ==="));
    lines.push(analysis);
    let n = crate::store::Note::ScanFindings(lines);
    proof {
        assert(n.deep_view() =~~= NoteV::ScanFindings(
            seq!["=== AI Security Analysis ==="@, analysis@],
        ));
    }
    n
}

} // verus!
