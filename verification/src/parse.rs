//! Strict parser for the canonical document text.  Every parsing
//! function is sound against the renderer — whatever it accepts is,
//! letter for letter, the canonical text of the value it returns —
//! and complete against it: the canonical text of any value parses
//! back to exactly that value.  So a document that loads is what
//! saving the loaded store writes back, every saved store loads back
//! equal, and anything else is treated as unreadable.  Strictness is
//! deliberate: the documented fallback treats every non-canonical
//! document — whitespace variants included — as corrupt, resetting to
//! the empty default rather than guessing at its meaning.

use vstd::prelude::*;

use crate::codec::{
    machine_text, machines_text, note_text, notes_text, opt_str_text, port_text, ports_text,
    str_arr_text, store_text, workspace_text, workspaces_text,
};
use crate::json::{
    arr_text, dec_digits, digit_char, digit_val_spec, esc, esc_char, is_digit_char, joined,
    lemma_dec_digits_props, lemma_esc_snoc, lemma_esc_split_at, lemma_joined_append,
    lemma_joined_snoc, num_of, quoted, string_from_chars,
};
use crate::store::{
    store_wf, Machine, MachineV, Note, NoteV, Port, PortV, Store, StoreV, Workspace, WorkspaceV,
};

verus! {

/// Adjacent pieces of one sequence concatenate.
pub proof fn lemma_glue(s: Seq<char>, a: int, b: int, c: int)
    requires
        0 <= a <= b <= c <= s.len(),
    ensures
        s.subrange(a, c) == s.subrange(a, b) + s.subrange(b, c),
{
    assert(s.subrange(a, c) =~= s.subrange(a, b) + s.subrange(b, c));
}

/// The text `t` stands in `s` at position `i`.
pub open spec fn text_at(s: Seq<char>, i: int, t: Seq<char>) -> bool {
    0 <= i && i + t.len() <= s.len() && s.subrange(i, i + t.len()) == t
}

/// A text made of two parts stands at `i` exactly when the parts
/// stand at `i` and after it.
pub proof fn lemma_text_at_split(s: Seq<char>, i: int, a: Seq<char>, b: Seq<char>)
    requires
        text_at(s, i, a + b),
    ensures
        text_at(s, i, a),
        text_at(s, i + a.len(), b),
{
    let t = a + b;
    assert forall|k: int| 0 <= k < a.len() implies s.subrange(i, i + a.len())[k] == a[k] by {
        assert(s.subrange(i, i + t.len())[k] == t[k]);
    }
    assert(s.subrange(i, i + a.len()) =~= a);
    assert forall|k: int|
        0 <= k < b.len() implies s.subrange(i + a.len(), i + a.len() + b.len())[k] == b[k] by {
        assert(s.subrange(i, i + t.len())[a.len() + k] == t[a.len() + k]);
    }
    assert(s.subrange(i + a.len(), i + a.len() + b.len()) =~= b);
}

/// A digit string denotes a non-negative number.
pub proof fn lemma_num_of_nonneg(s: Seq<char>)
    ensures
        num_of(s) >= 0,
    decreases s.len(),
{
    if s.len() > 0 {
        lemma_num_of_nonneg(s.drop_last());
    }
}

/// A prefix of a digit string denotes at most the whole string's
/// number.
pub proof fn lemma_num_of_prefix(s: Seq<char>, j: int)
    requires
        0 <= j <= s.len(),
    ensures
        num_of(s.take(j)) <= num_of(s),
    decreases s.len() - j,
{
    if j == s.len() {
        assert(s.take(j) =~= s);
    } else {
        assert(s.take(j + 1).drop_last() =~= s.take(j));
        assert(s.take(j + 1).last() == s[j]);
        lemma_num_of_nonneg(s.take(j));
        assert(num_of(s.take(j + 1)) == num_of(s.take(j)) * 10 + digit_val_spec(s[j]));
        lemma_num_of_prefix(s, j + 1);
    }
}

/// Consumes exactly the characters of `lit`, or nothing.
#[verifier::loop_isolation(false)]
pub(crate) fn expect_lit(s: &Vec<char>, i: usize, lit: &str) -> (r: Option<usize>)
    ensures
        r matches Some(n) ==> i <= n <= s@.len() && n == i + lit@.len() && s@.subrange(
            i as int,
            n as int,
        ) == lit@,
        text_at(s@, i as int, lit@) ==> r is Some,
{
    let m = lit.unicode_len();
    if i > s.len() || m > s.len() - i {
        proof {
            if text_at(s@, i as int, lit@) {
                assert(false);
            }
        }
        return None;
    }
    let mut j: usize = 0;
    while j < m
        invariant
            forall|k: int| 0 <= k < j ==> s@[i + k] == lit@[k],
            j <= m,
        decreases m - j,
    {
        if s[i + j] != lit.get_char(j) {
            proof {
                if text_at(s@, i as int, lit@) {
                    assert(s@.subrange(i as int, i + lit@.len())[j as int] == lit@[j as int]);
                    assert(false);
                }
            }
            return None;
        }
        j += 1;
    }
    proof {
        assert(s@.subrange(i as int, (i + m) as int) =~= lit@);
    }
    Some(i + m)
}

/// The numeric value of a decimal digit character.
fn digit_val(c: char) -> (r: Option<u64>)
    ensures
        match r {
            Some(d) => d < 10 && digit_char(d) == c && digit_val_spec(c) == d,
            None => !is_digit_char(c),
        },
{
    if c == '0' {
        Some(0)
    } else if c == '1' {
        Some(1)
    } else if c == '2' {
        Some(2)
    } else if c == '3' {
        Some(3)
    } else if c == '4' {
        Some(4)
    } else if c == '5' {
        Some(5)
    } else if c == '6' {
        Some(6)
    } else if c == '7' {
        Some(7)
    } else if c == '8' {
        Some(8)
    } else if c == '9' {
        Some(9)
    } else {
        None
    }
}

/// Whether the character is a decimal digit; used to find where a
/// number ends.
fn is_digit(c: char) -> (r: bool)
    ensures
        r == is_digit_char(c),
{
    c == '0' || c == '1' || c == '2' || c == '3' || c == '4' || c == '5' || c == '6' || c == '7'
        || c == '8' || c == '9'
}

/// Consumes a canonical unsigned decimal number.  When the canonical
/// digits of `exp`'s value stand at `i`, followed by no further
/// digit, the parse succeeds with exactly that value.
#[verifier::loop_isolation(false)]
pub(crate) fn parse_u64(s: &Vec<char>, i: usize, Ghost(exp): Ghost<Option<u64>>) -> (r: Option<
    (u64, usize),
>)
    requires
        (exp matches Some(w) ==> text_at(s@, i as int, dec_digits(w)) && (i + dec_digits(w).len()
            == s@.len() || !is_digit_char(s@[i + dec_digits(w).len()]))),
    ensures
        (r matches Some((v, n)) ==> i < n <= s@.len() && s@.subrange(i as int, n as int)
            == dec_digits(v)),
        (exp matches Some(w) ==> (r matches Some((v, n)) && v == w && n == i + dec_digits(
            w,
        ).len())),
{
    proof {
        if let Some(w) = exp {
            lemma_dec_digits_props(w);
        }
    }
    if i >= s.len() {
        proof {
            if let Some(w) = exp {
                assert(false);
            }
        }
        return None;
    }
    let d0 = match digit_val(s[i]) {
        None => {
            proof {
                if let Some(w) = exp {
                    assert(s@.subrange(i as int, i + dec_digits(w).len())[0] == dec_digits(w)[0]);
                    assert(is_digit_char(dec_digits(w)[0]));
                    assert(false);
                }
            }
            return None;
        },
        Some(d) => d,
    };
    if s[i] == '0' {
        proof {
            assert(s@.subrange(i as int, i + 1) =~= dec_digits(0));
            if let Some(w) = exp {
                assert(s@.subrange(i as int, i + dec_digits(w).len())[0] == dec_digits(w)[0]);
                if w >= 1 {
                    assert(dec_digits(w)[0] != '0');
                    assert(false);
                }
            }
        }
        return Some((0, i + 1));
    }
    let mut v: u64 = d0;
    let mut n: usize = i + 1;
    proof {
        assert(s@.subrange(i as int, n as int) =~= dec_digits(v));
        if let Some(w) = exp {
            let digits = dec_digits(w);
            assert(s@.subrange(i as int, i + digits.len())[0] == digits[0]);
            assert(digits.take(1).drop_last() =~= Seq::<char>::empty());
            assert(digits.take(1).last() == digits[0]);
            assert(num_of(Seq::<char>::empty()) == 0);
            assert(num_of(digits.take(1)) == digit_val_spec(digits[0]));
        }
    }
    while n < s.len() && is_digit(s[n])
        invariant
            i < n <= s@.len(),
            1 <= v,
            s@.subrange(i as int, n as int) == dec_digits(v),
            (exp matches Some(w) ==> n - i <= dec_digits(w).len() && v == num_of(
                dec_digits(w).take(n - i),
            )),
        decreases s@.len() - n,
    {
        proof {
            if let Some(w) = exp {
                let digits = dec_digits(w);
                let k = n - i;
                if k == digits.len() {
                    assert(false);
                }
                assert(s@.subrange(i as int, i + digits.len())[k] == digits[k]);
                assert(is_digit_char(digits[k]));
            }
        }
        let d = match digit_val(s[n]) {
            None => {
                proof {
                    assert(false);
                }
                return None;
            },
            Some(d) => d,
        };
        proof {
            if let Some(w) = exp {
                let digits = dec_digits(w);
                let k = n - i;
                assert(digits.take(k + 1).drop_last() =~= digits.take(k));
                assert(digits.take(k + 1).last() == digits[k]);
                assert(num_of(digits.take(k + 1)) == num_of(digits.take(k)) * 10
                    + digit_val_spec(digits[k]));
                lemma_num_of_prefix(digits, k + 1);
                assert(num_of(digits.take(k + 1)) <= w);
                if v > (u64::MAX - d) / 10 {
                    assert(v * 10 + d > u64::MAX) by (nonlinear_arith)
                        requires
                            d < 10,
                            v > (u64::MAX - d) / 10,
                    ;
                    assert(false);
                }
            }
        }
        if v > (u64::MAX - d) / 10 {
            return None;
        }
        let v2 = v * 10 + d;
        proof {
            assert(v2 / 10 == v && v2 % 10 == d) by (nonlinear_arith)
                requires
                    d < 10,
                    1 <= v,
                    v2 == v * 10 + d,
            ;
            assert(dec_digits(v2) == dec_digits(v).push(digit_char(d)));
            lemma_glue(s@, i as int, n as int, n + 1);
            assert(s@.subrange(n as int, n + 1) =~= seq![s@[n as int]]);
            assert(s@.subrange(i as int, n + 1) =~= dec_digits(v).push(digit_char(d)));
        }
        v = v2;
        n += 1;
    }
    proof {
        if let Some(w) = exp {
            let digits = dec_digits(w);
            let k = n - i;
            if k < digits.len() {
                assert(s@.subrange(i as int, i + digits.len())[k] == digits[k]);
                assert(is_digit_char(digits[k]));
                assert(n < s@.len());
                assert(false);
            }
            assert(digits.take(k) =~= digits);
        }
    }
    Some((v, n))
}

/// Consumes a canonical quoted string and yields its unescaped body.
/// When the quoted canonical text of `exp`'s body stands at `i`, the
/// parse succeeds with exactly that body.
#[verifier::loop_isolation(false)]
pub(crate) fn parse_string(s: &Vec<char>, i: usize, Ghost(exp): Ghost<Option<Seq<char>>>) -> (r:
    Option<(String, usize)>)
    requires
        (exp matches Some(body) ==> text_at(s@, i as int, quoted(body))),
    ensures
        (r matches Some((v, n)) ==> i < n <= s@.len() && s@.subrange(i as int, n as int) == quoted(
            v@,
        )),
        (exp matches Some(body) ==> (r matches Some((v, n)) && v@ == body && n == i + quoted(
            body,
        ).len())),
{
    proof {
        if let Some(body) = exp {
            assert(quoted(body) =~= seq!['"'] + (esc(body) + seq!['"']));
            lemma_text_at_split(s@, i as int, seq!['"'], esc(body) + seq!['"']);
            lemma_text_at_split(s@, i + 1, esc(body), seq!['"']);
            assert(s@.subrange(i as int, i + 1)[0] == '"');
            assert(s@.subrange(i + 1 + esc(body).len(), i + 1 + esc(body).len() + 1)[0] == '"');
        }
    }
    if i >= s.len() || s[i] != '"' {
        proof {
            if let Some(body) = exp {
                assert(false);
            }
        }
        return None;
    }
    let mut content: Vec<char> = Vec::new();
    let mut n: usize = i + 1;
    let ghost mut j: int = 0;
    proof {
        assert(s@.subrange(i + 1, n as int) =~= esc(content@));
        if let Some(body) = exp {
            assert(content@ =~= body.take(0));
            assert(esc(body.take(0)).len() == 0);
        }
    }
    loop
        invariant
            i < n <= s@.len(),
            s@.subrange(i + 1, n as int) == esc(content@),
            (exp matches Some(body) ==> 0 <= j <= body.len() && content@ == body.take(j) && n == i
                + 1 + esc(body.take(j)).len()),
        decreases s@.len() - n,
    {
        proof {
            if let Some(body) = exp {
                if j < body.len() {
                    lemma_esc_split_at(body, j);
                    let off = n - (i + 1);
                    assert(off == esc(body.take(j)).len());
                    assert(s@.subrange(i + 1, i + 1 + esc(body).len())[off] == esc(body)[off]);
                    assert(esc(body)[off] == esc_char(body[j])[0]);
                    if esc_char(body[j]).len() == 2 {
                        assert(s@.subrange(i + 1, i + 1 + esc(body).len())[off + 1] == esc(
                            body,
                        )[off + 1]);
                        assert(esc(body)[off + 1] == esc_char(body[j])[1]);
                    }
                } else {
                    assert(content@ =~= body);
                    assert(n == i + 1 + esc(body).len());
                }
            }
        }
        if n >= s.len() {
            proof {
                if let Some(body) = exp {
                    assert(false);
                }
            }
            return None;
        }
        let c = s[n];
        if c == '"' {
            proof {
                assert(s@.subrange(i as int, n + 1) =~= quoted(content@));
                if let Some(body) = exp {
                    if j < body.len() {
                        assert(esc_char(body[j])[0] != '"');
                        assert(false);
                    }
                }
            }
            let out = string_from_chars(content);
            return Some((out, n + 1));
        }
        if c == '\\' {
            proof {
                if let Some(body) = exp {
                    if j == body.len() {
                        assert(false);
                    }
                }
            }
            if n + 1 >= s.len() {
                proof {
                    if let Some(body) = exp {
                        assert(esc_char(body[j]).len() == 2);
                        assert(false);
                    }
                }
                return None;
            }
            let e = s[n + 1];
            let decoded: char = if e == '"' {
                '"'
            } else if e == '\\' {
                '\\'
            } else if e == 'n' {
                '\n'
            } else if e == 'r' {
                '\r'
            } else if e == 't' {
                '\t'
            } else {
                proof {
                    if let Some(body) = exp {
                        assert(esc_char(body[j]).len() == 2);
                        assert(false);
                    }
                }
                return None;
            };
            proof {
                lemma_esc_snoc(content@, decoded);
                lemma_glue(s@, i + 1, n as int, n + 2);
                assert(s@.subrange(n as int, n + 2) =~= esc_char(decoded));
                assert(s@.subrange(i + 1, n + 2) =~= esc(content@.push(decoded)));
                if let Some(body) = exp {
                    assert(esc_char(body[j]).len() == 2);
                    assert(decoded == body[j]);
                    assert(content@.push(decoded) =~= body.take(j + 1));
                    lemma_esc_snoc(body.take(j), body[j]);
                    assert(body.take(j + 1) =~= body.take(j).push(body[j]));
                    j = j + 1;
                }
            }
            content.push(decoded);
            n += 2;
        } else {
            proof {
                if let Some(body) = exp {
                    if j == body.len() {
                        assert(false);
                    }
                    assert(esc_char(body[j]).len() == 1);
                    assert(body[j] == c);
                }
            }
            if c == '\n' || c == '\r' || c == '\t' {
                proof {
                    if let Some(body) = exp {
                        assert(false);
                    }
                }
                return None;
            }
            proof {
                lemma_esc_snoc(content@, c);
                lemma_glue(s@, i + 1, n as int, n + 1);
                assert(s@.subrange(n as int, n + 1) =~= esc_char(c));
                assert(s@.subrange(i + 1, n + 1) =~= esc(content@.push(c)));
                if let Some(body) = exp {
                    assert(content@.push(c) =~= body.take(j + 1));
                    lemma_esc_snoc(body.take(j), body[j]);
                    assert(body.take(j + 1) =~= body.take(j).push(body[j]));
                    j = j + 1;
                }
            }
            content.push(c);
            n += 1;
        }
    }
}

/// One array-parse step: after a comma and one element's text, the
/// consumed text is the joined list extended by that element.
proof fn lemma_parts_step(
    s: Seq<char>,
    i: int,
    n: int,
    n3: int,
    parts0: Seq<Seq<char>>,
    elt: Seq<char>,
)
    requires
        0 <= i,
        i + 1 <= n,
        n + 1 <= n3 <= s.len(),
        s.subrange(i + 1, n) == joined(parts0),
        s.subrange(n, n + 1) == seq![','],
        s.subrange(n + 1, n3) == elt,
        parts0.len() >= 1,
    ensures
        s.subrange(i + 1, n3) == joined(parts0.push(elt)),
{
    lemma_joined_snoc(parts0, elt);
    lemma_glue(s, i + 1, n, n + 1);
    lemma_glue(s, i + 1, n + 1, n3);
    assert(s.subrange(i + 1, n3) =~= joined(parts0) + seq![','] + elt);
}

/// Consumes `null` or a quoted string; when the canonical text of
/// `exp`'s optional string stands at `i`, the parse succeeds with
/// exactly it.
pub(crate) fn parse_opt_str(
    s: &Vec<char>,
    i: usize,
    Ghost(exp): Ghost<Option<Option<Seq<char>>>>,
) -> (r: Option<(Option<String>, usize)>)
    requires
        (exp matches Some(o) ==> text_at(s@, i as int, opt_str_text(o))),
    ensures
        (r matches Some((v, n)) ==> i < n <= s@.len() && s@.subrange(i as int, n as int)
            == opt_str_text(v.deep_view())),
        (exp matches Some(o) ==> (r matches Some((v, n)) && v.deep_view() == o && n == i
            + opt_str_text(o).len())),
{
    proof {
        reveal_strlit("null");
    }
    match expect_lit(s, i, "null") {
        Some(n) => {
            proof {
                if let Some(o) = exp {
                    if let Some(body) = o {
                        assert(quoted(body) =~= seq!['"'] + (esc(body) + seq!['"']));
                        lemma_text_at_split(s@, i as int, seq!['"'], esc(body) + seq!['"']);
                        assert(s@.subrange(i as int, i + 1)[0] == '"');
                        assert(s@.subrange(i as int, i + "null"@.len())[0] == 'n');
                        assert(false);
                    }
                }
            }
            Some((None, n))
        },
        None => {
            proof {
                if let Some(o) = exp {
                    if o is None {
                        assert(false);
                    }
                }
            }
            let ghost sub: Option<Seq<char>> = match exp {
                Some(o) => o,
                None => None,
            };
            match parse_string(s, i, Ghost(sub)) {
                Some((v, n)) => Some((Some(v), n)),
                None => {
                    proof {
                        if let Some(o) = exp {
                            assert(false);
                        }
                    }
                    None
                },
            }
        },
    }
}

/// A quoted string's text is non-empty and does not open a list end.
proof fn lemma_quoted_head(b: Seq<char>)
    ensures
        quoted(b).len() >= 2,
        quoted(b)[0] == '"',
        quoted(b)[0] != ']',
{
}

/// A note's text is non-empty and does not open a list end.
proof fn lemma_note_text_head(n: NoteV)
    ensures
        note_text(n).len() >= 1,
        note_text(n)[0] != ']',
{
    reveal(note_text);
    reveal_strlit("{\"ScanFindings\":");
    reveal_strlit("{\"Credentials\":{\"name\":");
    reveal_strlit("{\"PentestObservation\":{\"stage\":");
    reveal_strlit("\"Empty\"");
    match n {
        NoteV::ScanFindings(_) => {
            assert(note_text(n)[0] == '{');
        },
        NoteV::Credentials { .. } => {
            assert(note_text(n)[0] == '{');
        },
        NoteV::PentestObservation { .. } => {
            assert(note_text(n)[0] == '{');
        },
        NoteV::Empty => {
            assert(note_text(n)[0] == '"');
        },
    }
}

/// A port's text is non-empty and does not open a list end.
proof fn lemma_port_text_head(p: PortV)
    ensures
        port_text(p).len() >= 1,
        port_text(p)[0] != ']',
{
    reveal(port_text);
    reveal_strlit("{\"service\":");
    assert(port_text(p)[0] == '{');
}

/// A machine's text is non-empty and does not open a list end.
proof fn lemma_machine_text_head(m: MachineV)
    ensures
        machine_text(m).len() >= 1,
        machine_text(m)[0] != ']',
{
    reveal(machine_text);
    reveal_strlit("{\"id\":");
    assert(machine_text(m)[0] == '{');
}

/// A workspace's text is non-empty and does not open a list end.
proof fn lemma_workspace_text_head(w: WorkspaceV)
    ensures
        workspace_text(w).len() >= 1,
        workspace_text(w)[0] != ']',
{
    reveal(workspace_text);
    reveal_strlit("{\"id\":");
    assert(workspace_text(w)[0] == '{');
}

/// Consumes a canonical array of quoted strings; when the canonical array
/// text of `exp`'s elements stands at `i`, the parse succeeds with
/// exactly those elements.
#[verifier::loop_isolation(false)]
#[verifier::rlimit(100)]
pub(crate) fn parse_str_array(
    s: &Vec<char>,
    i: usize,
    Ghost(exp): Ghost<Option<Seq<Seq<char>>>>,
) -> (r: Option<(Vec<String>, usize)>)
    requires
        (exp matches Some(elems) ==> text_at(s@, i as int, str_arr_text(elems))),
    ensures
        (r matches Some((v, n)) ==> i < n <= s@.len() && s@.subrange(i as int, n as int)
            == str_arr_text(v.deep_view())),
        (exp matches Some(elems) ==> (r matches Some((v, n)) && v.deep_view() == elems && n == i
            + str_arr_text(elems).len())),
{
    let ghost f = |x: Seq<char>| quoted(x);
    proof {
        if let Some(elems) = exp {
            let pe = elems.map_values(f);
            assert(str_arr_text(elems) == arr_text(pe));
            assert(arr_text(pe) =~= seq!['['] + (joined(pe) + seq![']']));
            lemma_text_at_split(s@, i as int, seq!['['], joined(pe) + seq![']']);
            lemma_text_at_split(s@, i + 1, joined(pe), seq![']']);
            assert(s@.subrange(i as int, i + 1)[0] == '[');
            assert(s@.subrange(i + 1 + joined(pe).len(), i + 1 + joined(pe).len() + 1)[0] == ']');
        }
    }
    if i >= s.len() || s[i] != '[' {
        proof {
            if let Some(elems) = exp {
                assert(false);
            }
        }
        return None;
    }
    let mut v: Vec<String> = Vec::new();
    let mut n: usize = i + 1;
    let ghost mut k: int = 0;
    if n < s.len() && s[n] == ']' {
        proof {
            assert(v.deep_view().map_values(f) =~= Seq::<Seq<char>>::empty());
            assert(s@.subrange(i as int, n + 1) =~= arr_text(v.deep_view().map_values(f)));
            if let Some(elems) = exp {
                let pe = elems.map_values(f);
                if elems.len() > 0 {
                    lemma_quoted_head(elems[0]);
                    assert(pe[0] == quoted(elems[0]));
                    assert(joined(pe)[0] == pe[0][0]);
                    assert(s@.subrange(i + 1, i + 1 + joined(pe).len())[0] == joined(pe)[0]);
                    assert(false);
                }
                assert(v.deep_view() =~= elems);
                assert(joined(pe) =~= Seq::<char>::empty());
            }
        }
        return Some((v, n + 1));
    }
    proof {
        if let Some(elems) = exp {
            let pe = elems.map_values(f);
            if elems.len() == 0 {
                assert(joined(pe).len() == 0);
                assert(s@.subrange(i + 1 + joined(pe).len(), i + 1 + joined(pe).len() + 1)[0]
                    == ']');
                assert(false);
            }
            assert(pe =~= pe.take(1) + pe.skip(1));
            lemma_joined_append(pe.take(1), pe.skip(1));
            assert(joined(pe.take(1)) == pe.take(1)[0]);
            assert(pe.take(1)[0] == pe[0]);
            assert(pe[0] == quoted(elems[0]));
            let rest = (if 1 < elems.len() {
                seq![',']
            } else {
                Seq::<char>::empty()
            }) + joined(pe.skip(1));
            assert(joined(pe) =~= pe[0] + rest);
            lemma_text_at_split(s@, i + 1, pe[0], rest);
        }
    }
    let ghost h0: Option<Seq<char>> = match exp {
        Some(elems) => Some(elems[0]),
        None => None,
    };
    let (el0, n2) = match parse_string(s, n, Ghost(h0)) {
        None => {
            proof {
                if let Some(elems) = exp {
                    assert(false);
                }
            }
            return None;
        },
        Some(t) => t,
    };
    let ghost el0v = el0.deep_view();
    v.push(el0);
    n = n2;
    proof {
        k = 1;
        let parts = v.deep_view().map_values(f);
        assert(parts =~= seq![quoted(el0v)]);
        assert(parts.len() == 1);
        assert(parts[0] == quoted(el0v));
        assert(joined(parts) == parts[0]);
        assert(s@.subrange(i + 1, n as int) == joined(parts));
        if let Some(elems) = exp {
            let pe = elems.map_values(f);
            assert(el0v == elems[0]);
            assert(v.deep_view() =~= elems.take(1));
            assert(pe.take(1)[0] == pe[0]);
            assert(joined(pe.take(1)) == pe[0]);
            assert(n == i + 1 + joined(pe.take(k)).len());
        }
    }
    loop
        invariant
            i < n <= s@.len(),
            v@.len() >= 1,
            s@.subrange(i + 1, n as int) == joined(v.deep_view().map_values(f)),
            (exp matches Some(elems) ==> 1 <= k <= elems.len() && v.deep_view() == elems.take(k)
                && n == i + 1 + joined(elems.map_values(f).take(k)).len()),
        decreases s@.len() - n,
    {
        proof {
            if let Some(elems) = exp {
                let pe = elems.map_values(f);
                assert(pe =~= pe.take(k) + pe.skip(k));
                lemma_joined_append(pe.take(k), pe.skip(k));
                if k < elems.len() {
                    assert(pe.take(k + 1) =~= pe.take(k).push(pe[k]));
                    lemma_joined_snoc(pe.take(k), pe[k]);
                    assert(pe =~= pe.take(k + 1) + pe.skip(k + 1));
                    lemma_joined_append(pe.take(k + 1), pe.skip(k + 1));
                    lemma_quoted_head(elems[k]);
                    assert(pe[k] == quoted(elems[k]));
                    let sep2 = if k + 1 < elems.len() {
                        seq![',']
                    } else {
                        Seq::<char>::empty()
                    };
                    let a = joined(pe.take(k)) + seq![','];
                    let b = pe[k] + (sep2 + joined(pe.skip(k + 1)));
                    assert(joined(pe) =~= a + b);
                    lemma_text_at_split(s@, i + 1, a, b);
                    lemma_text_at_split(s@, i + 1 + a.len(), pe[k], sep2 + joined(pe.skip(k + 1)));
                    assert(a[a.len() - 1] == ',');
                    assert(s@.subrange(i + 1, i + 1 + a.len())[a.len() - 1] == a[a.len() - 1]);
                    assert(s@[n as int] == ',');
                } else {
                    assert(pe.take(k) =~= pe);
                    assert(n == i + 1 + joined(pe).len());
                    assert(s@.subrange(i + 1 + joined(pe).len(), i + 1 + joined(pe).len() + 1)[0]
                        == ']');
                    assert(s@[n as int] == ']');
                }
            }
        }
        if n >= s.len() {
            proof {
                if let Some(elems) = exp {
                    assert(false);
                }
            }
            return None;
        }
        if s[n] == ']' {
            proof {
                assert(s@.subrange(i as int, n + 1) =~= arr_text(v.deep_view().map_values(f)));
                if let Some(elems) = exp {
                    if k < elems.len() {
                        assert(false);
                    }
                    assert(v.deep_view() =~= elems);
                }
            }
            return Some((v, n + 1));
        }
        if s[n] != ',' {
            proof {
                if let Some(elems) = exp {
                    assert(false);
                }
            }
            return None;
        }
        let ghost hk: Option<Seq<char>> = match exp {
            Some(elems) => Some(elems[k]),
            None => None,
        };
        proof {
            if let Some(elems) = exp {
                if k == elems.len() {
                    assert(false);
                }
            }
        }
        let (el, n3) = match parse_string(s, n + 1, Ghost(hk)) {
            None => {
                proof {
                    if let Some(elems) = exp {
                        assert(false);
                    }
                }
                return None;
            },
            Some(t) => t,
        };
        let ghost elv = el.deep_view();
        proof {
            assert(s@.subrange(n as int, n + 1) =~= seq![',']);
            lemma_parts_step(
                s@,
                i as int,
                n as int,
                n3 as int,
                v.deep_view().map_values(f),
                quoted(elv),
            );
        }
        let ghost prev_dv = v.deep_view();
        v.push(el);
        n = n3;
        proof {
            assert(v.deep_view() =~= prev_dv.push(elv));
            assert(v.deep_view().map_values(f) =~= prev_dv.map_values(f).push(quoted(elv)));
            assert(s@.subrange(i + 1, n as int) == joined(v.deep_view().map_values(f)));
            if let Some(elems) = exp {
                let pe = elems.map_values(f);
                assert(elv == elems[k]);
                assert(v.deep_view() =~= elems.take(k + 1));
                assert(pe.take(k + 1) =~= pe.take(k).push(pe[k]));
                lemma_joined_snoc(pe.take(k), pe[k]);
                assert(n == i + 1 + joined(pe.take(k + 1)).len());
                k = k + 1;
            }
        }
    }
}

/// Consumes one canonical note; when the canonical text of `exp`'s
/// note stands at `i`, the parse succeeds with exactly that note.
#[verifier::rlimit(100)]
pub(crate) fn parse_note(s: &Vec<char>, i: usize, Ghost(exp): Ghost<Option<NoteV>>) -> (r: Option<
    (Note, usize),
>)
    requires
        (exp matches Some(nv) ==> text_at(s@, i as int, note_text(nv))),
    ensures
        (r matches Some((v, n)) ==> i < n <= s@.len() && s@.subrange(i as int, n as int)
            == note_text(v.deep_view())),
        (exp matches Some(nv) ==> (r matches Some((v, n)) && v.deep_view() == nv && n == i
            + note_text(nv).len())),
{
    proof {
        reveal(note_text);
        reveal_strlit("{\"ScanFindings\":");
        reveal_strlit("{\"Credentials\":{\"name\":");
        reveal_strlit("{\"PentestObservation\":{\"stage\":");
        reveal_strlit("\"Empty\"");
        if let Some(nv) = exp {
            match nv {
                NoteV::ScanFindings(lines) => {
                    assert(note_text(nv) =~= "{\"ScanFindings\":"@ + (str_arr_text(lines)
                        + seq!['}']));
                    lemma_text_at_split(
                        s@,
                        i as int,
                        "{\"ScanFindings\":"@,
                        str_arr_text(lines) + seq!['}'],
                    );
                    lemma_text_at_split(
                        s@,
                        i + "{\"ScanFindings\":"@.len(),
                        str_arr_text(lines),
                        seq!['}'],
                    );
                },
                NoteV::Credentials { name, hash, password } => {
                    let t6 = "}}"@;
                    let t5 = opt_str_text(password) + t6;
                    let t4 = ",\"password\":"@ + t5;
                    let t3 = opt_str_text(hash) + t4;
                    let t2 = ",\"hash\":"@ + t3;
                    let t1 = opt_str_text(name) + t2;
                    assert(note_text(nv) =~= "{\"Credentials\":{\"name\":"@ + t1);
                    lemma_text_at_split(s@, i as int, "{\"Credentials\":{\"name\":"@, t1);
                    let p1 = i + "{\"Credentials\":{\"name\":"@.len();
                    assert(t1 =~= opt_str_text(name) + t2);
                    lemma_text_at_split(s@, p1, opt_str_text(name), t2);
                    let p2 = p1 + opt_str_text(name).len();
                    assert(t2 =~= ",\"hash\":"@ + t3);
                    lemma_text_at_split(s@, p2, ",\"hash\":"@, t3);
                    let p3 = p2 + ",\"hash\":"@.len();
                    assert(t3 =~= opt_str_text(hash) + t4);
                    lemma_text_at_split(s@, p3, opt_str_text(hash), t4);
                    let p4 = p3 + opt_str_text(hash).len();
                    assert(t4 =~= ",\"password\":"@ + t5);
                    lemma_text_at_split(s@, p4, ",\"password\":"@, t5);
                    let p5 = p4 + ",\"password\":"@.len();
                    assert(t5 =~= opt_str_text(password) + t6);
                    lemma_text_at_split(s@, p5, opt_str_text(password), t6);
                },
                NoteV::PentestObservation { stage, content, timestamp } => {
                    let t6 = "}}"@;
                    let t5 = quoted(timestamp) + t6;
                    let t4 = ",\"timestamp\":"@ + t5;
                    let t3 = quoted(content) + t4;
                    let t2 = ",\"content\":"@ + t3;
                    let t1 = quoted(stage) + t2;
                    assert(note_text(nv) =~= "{\"PentestObservation\":{\"stage\":"@ + t1);
                    lemma_text_at_split(s@, i as int, "{\"PentestObservation\":{\"stage\":"@, t1);
                    let p1 = i + "{\"PentestObservation\":{\"stage\":"@.len();
                    assert(t1 =~= quoted(stage) + t2);
                    lemma_text_at_split(s@, p1, quoted(stage), t2);
                    let p2 = p1 + quoted(stage).len();
                    assert(t2 =~= ",\"content\":"@ + t3);
                    lemma_text_at_split(s@, p2, ",\"content\":"@, t3);
                    let p3 = p2 + ",\"content\":"@.len();
                    assert(t3 =~= quoted(content) + t4);
                    lemma_text_at_split(s@, p3, quoted(content), t4);
                    let p4 = p3 + quoted(content).len();
                    assert(t4 =~= ",\"timestamp\":"@ + t5);
                    lemma_text_at_split(s@, p4, ",\"timestamp\":"@, t5);
                    let p5 = p4 + ",\"timestamp\":"@.len();
                    assert(t5 =~= quoted(timestamp) + t6);
                    lemma_text_at_split(s@, p5, quoted(timestamp), t6);
                },
                NoteV::Empty => {
                },
            }
        }
    }
    if let Some(n1) = expect_lit(s, i, "{\"ScanFindings\":") {
        proof {
            reveal(note_text);
            if let Some(nv) = exp {
                match nv {
                    NoteV::ScanFindings(_) => {},
                    NoteV::Credentials { .. } => {
                        assert(s@.subrange(i as int, i + "{\"ScanFindings\":"@.len())[2] == 'S');
                        assert(s@.subrange(
                            i as int,
                            i + "{\"Credentials\":{\"name\":"@.len(),
                        )[2] == 'C');
                        assert(false);
                    },
                    NoteV::PentestObservation { .. } => {
                        assert(s@.subrange(i as int, i + "{\"ScanFindings\":"@.len())[2] == 'S');
                        assert(s@.subrange(
                            i as int,
                            i + "{\"PentestObservation\":{\"stage\":"@.len(),
                        )[2] == 'P');
                        assert(false);
                    },
                    NoteV::Empty => {
                        assert(s@.subrange(i as int, i + "{\"ScanFindings\":"@.len())[0] == '{');
                        assert(s@.subrange(i as int, i + note_text(nv).len())[0] == '"');
                        assert(false);
                    },
                }
            }
        }
        let ghost hl: Option<Seq<Seq<char>>> = match exp {
            Some(NoteV::ScanFindings(lines)) => Some(lines),
            _ => None,
        };
        let (lines, n2) = match parse_str_array(s, n1, Ghost(hl)) {
            None => {
                proof {
                    if let Some(nv) = exp {
                        assert(false);
                    }
                }
                return None;
            },
            Some(t) => t,
        };
        if n2 >= s.len() || s[n2] != '}' {
            proof {
                if let Some(nv) = exp {
                    assert(s@.subrange(n2 as int, n2 + 1)[0] == '}');
                    assert(false);
                }
            }
            return None;
        }
        let out = Note::ScanFindings(lines);
        proof {
            lemma_glue(s@, i as int, n1 as int, n2 as int);
            assert(s@.subrange(n2 as int, n2 + 1) =~= seq!['}']);
            lemma_glue(s@, i as int, n2 as int, n2 + 1);
            reveal(note_text);
            assert(s@.subrange(i as int, n2 + 1) =~= note_text(out.deep_view()));
            if let Some(nv) = exp {
                assert(out.deep_view() =~~= nv);
            }
        }
        return Some((out, n2 + 1));
    }
    if let Some(n1) = expect_lit(s, i, "{\"Credentials\":{\"name\":") {
        proof {
            reveal(note_text);
            if let Some(nv) = exp {
                match nv {
                    NoteV::Credentials { .. } => {},
                    NoteV::ScanFindings(_) => {
                        assert(false);
                    },
                    NoteV::PentestObservation { .. } => {
                        assert(s@.subrange(
                            i as int,
                            i + "{\"Credentials\":{\"name\":"@.len(),
                        )[2] == 'C');
                        assert(s@.subrange(
                            i as int,
                            i + "{\"PentestObservation\":{\"stage\":"@.len(),
                        )[2] == 'P');
                        assert(false);
                    },
                    NoteV::Empty => {
                        assert(s@.subrange(
                            i as int,
                            i + "{\"Credentials\":{\"name\":"@.len(),
                        )[0] == '{');
                        assert(s@.subrange(i as int, i + note_text(nv).len())[0] == '"');
                        assert(false);
                    },
                }
            }
        }
        let ghost hname: Option<Option<Seq<char>>> = match exp {
            Some(NoteV::Credentials { name, .. }) => Some(name),
            _ => None,
        };
        let (name, n2) = match parse_opt_str(s, n1, Ghost(hname)) {
            None => {
                proof {
                    if let Some(nv) = exp {
                        assert(false);
                    }
                }
                return None;
            },
            Some(t) => t,
        };
        let n3 = match expect_lit(s, n2, ",\"hash\":") {
            None => {
                proof {
                    if let Some(nv) = exp {
                        assert(false);
                    }
                }
                return None;
            },
            Some(n) => n,
        };
        let ghost hhash: Option<Option<Seq<char>>> = match exp {
            Some(NoteV::Credentials { hash, .. }) => Some(hash),
            _ => None,
        };
        let (hash, n4) = match parse_opt_str(s, n3, Ghost(hhash)) {
            None => {
                proof {
                    if let Some(nv) = exp {
                        assert(false);
                    }
                }
                return None;
            },
            Some(t) => t,
        };
        let n5 = match expect_lit(s, n4, ",\"password\":") {
            None => {
                proof {
                    if let Some(nv) = exp {
                        assert(false);
                    }
                }
                return None;
            },
            Some(n) => n,
        };
        let ghost hpw: Option<Option<Seq<char>>> = match exp {
            Some(NoteV::Credentials { password, .. }) => Some(password),
            _ => None,
        };
        let (password, n6) = match parse_opt_str(s, n5, Ghost(hpw)) {
            None => {
                proof {
                    if let Some(nv) = exp {
                        assert(false);
                    }
                }
                return None;
            },
            Some(t) => t,
        };
        let n7 = match expect_lit(s, n6, "}}") {
            None => {
                proof {
                    if let Some(nv) = exp {
                        assert(false);
                    }
                }
                return None;
            },
            Some(n) => n,
        };
        let out = Note::Credentials { name, hash, password };
        proof {
            lemma_glue(s@, i as int, n1 as int, n2 as int);
            lemma_glue(s@, i as int, n2 as int, n3 as int);
            lemma_glue(s@, i as int, n3 as int, n4 as int);
            lemma_glue(s@, i as int, n4 as int, n5 as int);
            lemma_glue(s@, i as int, n5 as int, n6 as int);
            lemma_glue(s@, i as int, n6 as int, n7 as int);
            reveal(note_text);
            assert(s@.subrange(i as int, n7 as int) =~= note_text(out.deep_view()));
            if let Some(nv) = exp {
                assert(out.deep_view() =~~= nv);
            }
        }
        return Some((out, n7));
    }
    if let Some(n1) = expect_lit(s, i, "{\"PentestObservation\":{\"stage\":") {
        proof {
            reveal(note_text);
            if let Some(nv) = exp {
                match nv {
                    NoteV::PentestObservation { .. } => {},
                    NoteV::ScanFindings(_) => {
                        assert(false);
                    },
                    NoteV::Credentials { .. } => {
                        assert(false);
                    },
                    NoteV::Empty => {
                        assert(s@.subrange(
                            i as int,
                            i + "{\"PentestObservation\":{\"stage\":"@.len(),
                        )[0] == '{');
                        assert(s@.subrange(i as int, i + note_text(nv).len())[0] == '"');
                        assert(false);
                    },
                }
            }
        }
        let ghost hstage: Option<Seq<char>> = match exp {
            Some(NoteV::PentestObservation { stage, .. }) => Some(stage),
            _ => None,
        };
        let (stage, n2) = match parse_string(s, n1, Ghost(hstage)) {
            None => {
                proof {
                    if let Some(nv) = exp {
                        assert(false);
                    }
                }
                return None;
            },
            Some(t) => t,
        };
        let n3 = match expect_lit(s, n2, ",\"content\":") {
            None => {
                proof {
                    if let Some(nv) = exp {
                        assert(false);
                    }
                }
                return None;
            },
            Some(n) => n,
        };
        let ghost hcontent: Option<Seq<char>> = match exp {
            Some(NoteV::PentestObservation { content, .. }) => Some(content),
            _ => None,
        };
        let (content, n4) = match parse_string(s, n3, Ghost(hcontent)) {
            None => {
                proof {
                    if let Some(nv) = exp {
                        assert(false);
                    }
                }
                return None;
            },
            Some(t) => t,
        };
        let n5 = match expect_lit(s, n4, ",\"timestamp\":") {
            None => {
                proof {
                    if let Some(nv) = exp {
                        assert(false);
                    }
                }
                return None;
            },
            Some(n) => n,
        };
        let ghost hts: Option<Seq<char>> = match exp {
            Some(NoteV::PentestObservation { timestamp, .. }) => Some(timestamp),
            _ => None,
        };
        let (timestamp, n6) = match parse_string(s, n5, Ghost(hts)) {
            None => {
                proof {
                    if let Some(nv) = exp {
                        assert(false);
                    }
                }
                return None;
            },
            Some(t) => t,
        };
        let n7 = match expect_lit(s, n6, "}}") {
            None => {
                proof {
                    if let Some(nv) = exp {
                        assert(false);
                    }
                }
                return None;
            },
            Some(n) => n,
        };
        let out = Note::PentestObservation { stage, content, timestamp };
        proof {
            lemma_glue(s@, i as int, n1 as int, n2 as int);
            lemma_glue(s@, i as int, n2 as int, n3 as int);
            lemma_glue(s@, i as int, n3 as int, n4 as int);
            lemma_glue(s@, i as int, n4 as int, n5 as int);
            lemma_glue(s@, i as int, n5 as int, n6 as int);
            lemma_glue(s@, i as int, n6 as int, n7 as int);
            reveal(note_text);
            assert(s@.subrange(i as int, n7 as int) =~= note_text(out.deep_view()));
            if let Some(nv) = exp {
                assert(out.deep_view() =~~= nv);
            }
        }
        return Some((out, n7));
    }
    if let Some(n1) = expect_lit(s, i, "\"Empty\"") {
        proof {
            reveal(note_text);
            assert(note_text(NoteV::Empty) == "\"Empty\""@);
            if let Some(nv) = exp {
                match nv {
                    NoteV::Empty => {},
                    NoteV::ScanFindings(_) => {
                        assert(false);
                    },
                    NoteV::Credentials { .. } => {
                        assert(false);
                    },
                    NoteV::PentestObservation { .. } => {
                        assert(false);
                    },
                }
            }
        }
        return Some((Note::Empty, n1));
    }
    proof {
        reveal(note_text);
        if let Some(nv) = exp {
            match nv {
                NoteV::ScanFindings(_) => {
                    assert(false);
                },
                NoteV::Credentials { .. } => {
                    assert(false);
                },
                NoteV::PentestObservation { .. } => {
                    assert(false);
                },
                NoteV::Empty => {
                    assert(false);
                },
            }
        }
    }
    None
}

/// Consumes a canonical array of notes; when the canonical array
/// text of `exp`'s elements stands at `i`, the parse succeeds with
/// exactly those elements.
#[verifier::loop_isolation(false)]
#[verifier::rlimit(100)]
pub(crate) fn parse_notes(
    s: &Vec<char>,
    i: usize,
    Ghost(exp): Ghost<Option<Seq<NoteV>>>,
) -> (r: Option<(Vec<Note>, usize)>)
    requires
        (exp matches Some(elems) ==> text_at(s@, i as int, notes_text(elems))),
    ensures
        (r matches Some((v, n)) ==> i < n <= s@.len() && s@.subrange(i as int, n as int)
            == notes_text(v.deep_view())),
        (exp matches Some(elems) ==> (r matches Some((v, n)) && v.deep_view() == elems && n == i
            + notes_text(elems).len())),
{
    let ghost f = |x: NoteV| note_text(x);
    proof {
        if let Some(elems) = exp {
            let pe = elems.map_values(f);
            assert(notes_text(elems) == arr_text(pe));
            assert(arr_text(pe) =~= seq!['['] + (joined(pe) + seq![']']));
            lemma_text_at_split(s@, i as int, seq!['['], joined(pe) + seq![']']);
            lemma_text_at_split(s@, i + 1, joined(pe), seq![']']);
            assert(s@.subrange(i as int, i + 1)[0] == '[');
            assert(s@.subrange(i + 1 + joined(pe).len(), i + 1 + joined(pe).len() + 1)[0] == ']');
        }
    }
    if i >= s.len() || s[i] != '[' {
        proof {
            if let Some(elems) = exp {
                assert(false);
            }
        }
        return None;
    }
    let mut v: Vec<Note> = Vec::new();
    let mut n: usize = i + 1;
    let ghost mut k: int = 0;
    if n < s.len() && s[n] == ']' {
        proof {
            assert(v.deep_view().map_values(f) =~= Seq::<Seq<char>>::empty());
            assert(s@.subrange(i as int, n + 1) =~= arr_text(v.deep_view().map_values(f)));
            if let Some(elems) = exp {
                let pe = elems.map_values(f);
                if elems.len() > 0 {
                    lemma_note_text_head(elems[0]);
                    assert(pe[0] == note_text(elems[0]));
                    assert(joined(pe)[0] == pe[0][0]);
                    assert(s@.subrange(i + 1, i + 1 + joined(pe).len())[0] == joined(pe)[0]);
                    assert(false);
                }
                assert(v.deep_view() =~= elems);
                assert(joined(pe) =~= Seq::<char>::empty());
            }
        }
        return Some((v, n + 1));
    }
    proof {
        if let Some(elems) = exp {
            let pe = elems.map_values(f);
            if elems.len() == 0 {
                assert(joined(pe).len() == 0);
                assert(s@.subrange(i + 1 + joined(pe).len(), i + 1 + joined(pe).len() + 1)[0]
                    == ']');
                assert(false);
            }
            assert(pe =~= pe.take(1) + pe.skip(1));
            lemma_joined_append(pe.take(1), pe.skip(1));
            assert(joined(pe.take(1)) == pe.take(1)[0]);
            assert(pe.take(1)[0] == pe[0]);
            assert(pe[0] == note_text(elems[0]));
            let rest = (if 1 < elems.len() {
                seq![',']
            } else {
                Seq::<char>::empty()
            }) + joined(pe.skip(1));
            assert(joined(pe) =~= pe[0] + rest);
            lemma_text_at_split(s@, i + 1, pe[0], rest);
        }
    }
    let ghost h0: Option<NoteV> = match exp {
        Some(elems) => Some(elems[0]),
        None => None,
    };
    let (el0, n2) = match parse_note(s, n, Ghost(h0)) {
        None => {
            proof {
                if let Some(elems) = exp {
                    assert(false);
                }
            }
            return None;
        },
        Some(t) => t,
    };
    let ghost el0v = el0.deep_view();
    v.push(el0);
    n = n2;
    proof {
        k = 1;
        let parts = v.deep_view().map_values(f);
        assert(parts =~= seq![note_text(el0v)]);
        assert(parts.len() == 1);
        assert(parts[0] == note_text(el0v));
        assert(joined(parts) == parts[0]);
        assert(s@.subrange(i + 1, n as int) == joined(parts));
        if let Some(elems) = exp {
            let pe = elems.map_values(f);
            assert(el0v == elems[0]);
            assert(v.deep_view() =~= elems.take(1));
            assert(pe.take(1)[0] == pe[0]);
            assert(joined(pe.take(1)) == pe[0]);
            assert(n == i + 1 + joined(pe.take(k)).len());
        }
    }
    loop
        invariant
            i < n <= s@.len(),
            v@.len() >= 1,
            s@.subrange(i + 1, n as int) == joined(v.deep_view().map_values(f)),
            (exp matches Some(elems) ==> 1 <= k <= elems.len() && v.deep_view() == elems.take(k)
                && n == i + 1 + joined(elems.map_values(f).take(k)).len()),
        decreases s@.len() - n,
    {
        proof {
            if let Some(elems) = exp {
                let pe = elems.map_values(f);
                assert(pe =~= pe.take(k) + pe.skip(k));
                lemma_joined_append(pe.take(k), pe.skip(k));
                if k < elems.len() {
                    assert(pe.take(k + 1) =~= pe.take(k).push(pe[k]));
                    lemma_joined_snoc(pe.take(k), pe[k]);
                    assert(pe =~= pe.take(k + 1) + pe.skip(k + 1));
                    lemma_joined_append(pe.take(k + 1), pe.skip(k + 1));
                    lemma_note_text_head(elems[k]);
                    assert(pe[k] == note_text(elems[k]));
                    let sep2 = if k + 1 < elems.len() {
                        seq![',']
                    } else {
                        Seq::<char>::empty()
                    };
                    let a = joined(pe.take(k)) + seq![','];
                    let b = pe[k] + (sep2 + joined(pe.skip(k + 1)));
                    assert(joined(pe) =~= a + b);
                    lemma_text_at_split(s@, i + 1, a, b);
                    lemma_text_at_split(s@, i + 1 + a.len(), pe[k], sep2 + joined(pe.skip(k + 1)));
                    assert(a[a.len() - 1] == ',');
                    assert(s@.subrange(i + 1, i + 1 + a.len())[a.len() - 1] == a[a.len() - 1]);
                    assert(s@[n as int] == ',');
                } else {
                    assert(pe.take(k) =~= pe);
                    assert(n == i + 1 + joined(pe).len());
                    assert(s@.subrange(i + 1 + joined(pe).len(), i + 1 + joined(pe).len() + 1)[0]
                        == ']');
                    assert(s@[n as int] == ']');
                }
            }
        }
        if n >= s.len() {
            proof {
                if let Some(elems) = exp {
                    assert(false);
                }
            }
            return None;
        }
        if s[n] == ']' {
            proof {
                assert(s@.subrange(i as int, n + 1) =~= arr_text(v.deep_view().map_values(f)));
                if let Some(elems) = exp {
                    if k < elems.len() {
                        assert(false);
                    }
                    assert(v.deep_view() =~= elems);
                }
            }
            return Some((v, n + 1));
        }
        if s[n] != ',' {
            proof {
                if let Some(elems) = exp {
                    assert(false);
                }
            }
            return None;
        }
        let ghost hk: Option<NoteV> = match exp {
            Some(elems) => Some(elems[k]),
            None => None,
        };
        proof {
            if let Some(elems) = exp {
                if k == elems.len() {
                    assert(false);
                }
            }
        }
        let (el, n3) = match parse_note(s, n + 1, Ghost(hk)) {
            None => {
                proof {
                    if let Some(elems) = exp {
                        assert(false);
                    }
                }
                return None;
            },
            Some(t) => t,
        };
        let ghost elv = el.deep_view();
        proof {
            assert(s@.subrange(n as int, n + 1) =~= seq![',']);
            lemma_parts_step(
                s@,
                i as int,
                n as int,
                n3 as int,
                v.deep_view().map_values(f),
                note_text(elv),
            );
        }
        let ghost prev_dv = v.deep_view();
        v.push(el);
        n = n3;
        proof {
            assert(v.deep_view() =~= prev_dv.push(elv));
            assert(v.deep_view().map_values(f) =~= prev_dv.map_values(f).push(note_text(elv)));
            assert(s@.subrange(i + 1, n as int) == joined(v.deep_view().map_values(f)));
            if let Some(elems) = exp {
                let pe = elems.map_values(f);
                assert(elv == elems[k]);
                assert(v.deep_view() =~= elems.take(k + 1));
                assert(pe.take(k + 1) =~= pe.take(k).push(pe[k]));
                lemma_joined_snoc(pe.take(k), pe[k]);
                assert(n == i + 1 + joined(pe.take(k + 1)).len());
                k = k + 1;
            }
        }
    }
}

/// Consumes a canonical array of ports; when the canonical array
/// text of `exp`'s elements stands at `i`, the parse succeeds with
/// exactly those elements.
#[verifier::loop_isolation(false)]
#[verifier::rlimit(100)]
pub(crate) fn parse_ports(
    s: &Vec<char>,
    i: usize,
    Ghost(exp): Ghost<Option<Seq<PortV>>>,
) -> (r: Option<(Vec<Port>, usize)>)
    requires
        (exp matches Some(elems) ==> text_at(s@, i as int, ports_text(elems))),
    ensures
        (r matches Some((v, n)) ==> i < n <= s@.len() && s@.subrange(i as int, n as int)
            == ports_text(v.deep_view())),
        (exp matches Some(elems) ==> (r matches Some((v, n)) && v.deep_view() == elems && n == i
            + ports_text(elems).len())),
{
    let ghost f = |x: PortV| port_text(x);
    proof {
        if let Some(elems) = exp {
            let pe = elems.map_values(f);
            assert(ports_text(elems) == arr_text(pe));
            assert(arr_text(pe) =~= seq!['['] + (joined(pe) + seq![']']));
            lemma_text_at_split(s@, i as int, seq!['['], joined(pe) + seq![']']);
            lemma_text_at_split(s@, i + 1, joined(pe), seq![']']);
            assert(s@.subrange(i as int, i + 1)[0] == '[');
            assert(s@.subrange(i + 1 + joined(pe).len(), i + 1 + joined(pe).len() + 1)[0] == ']');
        }
    }
    if i >= s.len() || s[i] != '[' {
        proof {
            if let Some(elems) = exp {
                assert(false);
            }
        }
        return None;
    }
    let mut v: Vec<Port> = Vec::new();
    let mut n: usize = i + 1;
    let ghost mut k: int = 0;
    if n < s.len() && s[n] == ']' {
        proof {
            assert(v.deep_view().map_values(f) =~= Seq::<Seq<char>>::empty());
            assert(s@.subrange(i as int, n + 1) =~= arr_text(v.deep_view().map_values(f)));
            if let Some(elems) = exp {
                let pe = elems.map_values(f);
                if elems.len() > 0 {
                    lemma_port_text_head(elems[0]);
                    assert(pe[0] == port_text(elems[0]));
                    assert(joined(pe)[0] == pe[0][0]);
                    assert(s@.subrange(i + 1, i + 1 + joined(pe).len())[0] == joined(pe)[0]);
                    assert(false);
                }
                assert(v.deep_view() =~= elems);
                assert(joined(pe) =~= Seq::<char>::empty());
            }
        }
        return Some((v, n + 1));
    }
    proof {
        if let Some(elems) = exp {
            let pe = elems.map_values(f);
            if elems.len() == 0 {
                assert(joined(pe).len() == 0);
                assert(s@.subrange(i + 1 + joined(pe).len(), i + 1 + joined(pe).len() + 1)[0]
                    == ']');
                assert(false);
            }
            assert(pe =~= pe.take(1) + pe.skip(1));
            lemma_joined_append(pe.take(1), pe.skip(1));
            assert(joined(pe.take(1)) == pe.take(1)[0]);
            assert(pe.take(1)[0] == pe[0]);
            assert(pe[0] == port_text(elems[0]));
            let rest = (if 1 < elems.len() {
                seq![',']
            } else {
                Seq::<char>::empty()
            }) + joined(pe.skip(1));
            assert(joined(pe) =~= pe[0] + rest);
            lemma_text_at_split(s@, i + 1, pe[0], rest);
        }
    }
    let ghost h0: Option<PortV> = match exp {
        Some(elems) => Some(elems[0]),
        None => None,
    };
    let (el0, n2) = match parse_port(s, n, Ghost(h0)) {
        None => {
            proof {
                if let Some(elems) = exp {
                    assert(false);
                }
            }
            return None;
        },
        Some(t) => t,
    };
    let ghost el0v = el0.deep_view();
    v.push(el0);
    n = n2;
    proof {
        k = 1;
        let parts = v.deep_view().map_values(f);
        assert(parts =~= seq![port_text(el0v)]);
        assert(parts.len() == 1);
        assert(parts[0] == port_text(el0v));
        assert(joined(parts) == parts[0]);
        assert(s@.subrange(i + 1, n as int) == joined(parts));
        if let Some(elems) = exp {
            let pe = elems.map_values(f);
            assert(el0v == elems[0]);
            assert(v.deep_view() =~= elems.take(1));
            assert(pe.take(1)[0] == pe[0]);
            assert(joined(pe.take(1)) == pe[0]);
            assert(n == i + 1 + joined(pe.take(k)).len());
        }
    }
    loop
        invariant
            i < n <= s@.len(),
            v@.len() >= 1,
            s@.subrange(i + 1, n as int) == joined(v.deep_view().map_values(f)),
            (exp matches Some(elems) ==> 1 <= k <= elems.len() && v.deep_view() == elems.take(k)
                && n == i + 1 + joined(elems.map_values(f).take(k)).len()),
        decreases s@.len() - n,
    {
        proof {
            if let Some(elems) = exp {
                let pe = elems.map_values(f);
                assert(pe =~= pe.take(k) + pe.skip(k));
                lemma_joined_append(pe.take(k), pe.skip(k));
                if k < elems.len() {
                    assert(pe.take(k + 1) =~= pe.take(k).push(pe[k]));
                    lemma_joined_snoc(pe.take(k), pe[k]);
                    assert(pe =~= pe.take(k + 1) + pe.skip(k + 1));
                    lemma_joined_append(pe.take(k + 1), pe.skip(k + 1));
                    lemma_port_text_head(elems[k]);
                    assert(pe[k] == port_text(elems[k]));
                    let sep2 = if k + 1 < elems.len() {
                        seq![',']
                    } else {
                        Seq::<char>::empty()
                    };
                    let a = joined(pe.take(k)) + seq![','];
                    let b = pe[k] + (sep2 + joined(pe.skip(k + 1)));
                    assert(joined(pe) =~= a + b);
                    lemma_text_at_split(s@, i + 1, a, b);
                    lemma_text_at_split(s@, i + 1 + a.len(), pe[k], sep2 + joined(pe.skip(k + 1)));
                    assert(a[a.len() - 1] == ',');
                    assert(s@.subrange(i + 1, i + 1 + a.len())[a.len() - 1] == a[a.len() - 1]);
                    assert(s@[n as int] == ',');
                } else {
                    assert(pe.take(k) =~= pe);
                    assert(n == i + 1 + joined(pe).len());
                    assert(s@.subrange(i + 1 + joined(pe).len(), i + 1 + joined(pe).len() + 1)[0]
                        == ']');
                    assert(s@[n as int] == ']');
                }
            }
        }
        if n >= s.len() {
            proof {
                if let Some(elems) = exp {
                    assert(false);
                }
            }
            return None;
        }
        if s[n] == ']' {
            proof {
                assert(s@.subrange(i as int, n + 1) =~= arr_text(v.deep_view().map_values(f)));
                if let Some(elems) = exp {
                    if k < elems.len() {
                        assert(false);
                    }
                    assert(v.deep_view() =~= elems);
                }
            }
            return Some((v, n + 1));
        }
        if s[n] != ',' {
            proof {
                if let Some(elems) = exp {
                    assert(false);
                }
            }
            return None;
        }
        let ghost hk: Option<PortV> = match exp {
            Some(elems) => Some(elems[k]),
            None => None,
        };
        proof {
            if let Some(elems) = exp {
                if k == elems.len() {
                    assert(false);
                }
            }
        }
        let (el, n3) = match parse_port(s, n + 1, Ghost(hk)) {
            None => {
                proof {
                    if let Some(elems) = exp {
                        assert(false);
                    }
                }
                return None;
            },
            Some(t) => t,
        };
        let ghost elv = el.deep_view();
        proof {
            assert(s@.subrange(n as int, n + 1) =~= seq![',']);
            lemma_parts_step(
                s@,
                i as int,
                n as int,
                n3 as int,
                v.deep_view().map_values(f),
                port_text(elv),
            );
        }
        let ghost prev_dv = v.deep_view();
        v.push(el);
        n = n3;
        proof {
            assert(v.deep_view() =~= prev_dv.push(elv));
            assert(v.deep_view().map_values(f) =~= prev_dv.map_values(f).push(port_text(elv)));
            assert(s@.subrange(i + 1, n as int) == joined(v.deep_view().map_values(f)));
            if let Some(elems) = exp {
                let pe = elems.map_values(f);
                assert(elv == elems[k]);
                assert(v.deep_view() =~= elems.take(k + 1));
                assert(pe.take(k + 1) =~= pe.take(k).push(pe[k]));
                lemma_joined_snoc(pe.take(k), pe[k]);
                assert(n == i + 1 + joined(pe.take(k + 1)).len());
                k = k + 1;
            }
        }
    }
}

/// Consumes a canonical array of machines; when the canonical array
/// text of `exp`'s elements stands at `i`, the parse succeeds with
/// exactly those elements.
#[verifier::loop_isolation(false)]
#[verifier::rlimit(100)]
pub(crate) fn parse_machines(
    s: &Vec<char>,
    i: usize,
    Ghost(exp): Ghost<Option<Seq<MachineV>>>,
) -> (r: Option<(Vec<Machine>, usize)>)
    requires
        (exp matches Some(elems) ==> text_at(s@, i as int, machines_text(elems))),
    ensures
        (r matches Some((v, n)) ==> i < n <= s@.len() && s@.subrange(i as int, n as int)
            == machines_text(v.deep_view())),
        (exp matches Some(elems) ==> (r matches Some((v, n)) && v.deep_view() == elems && n == i
            + machines_text(elems).len())),
{
    let ghost f = |x: MachineV| machine_text(x);
    proof {
        if let Some(elems) = exp {
            let pe = elems.map_values(f);
            assert(machines_text(elems) == arr_text(pe));
            assert(arr_text(pe) =~= seq!['['] + (joined(pe) + seq![']']));
            lemma_text_at_split(s@, i as int, seq!['['], joined(pe) + seq![']']);
            lemma_text_at_split(s@, i + 1, joined(pe), seq![']']);
            assert(s@.subrange(i as int, i + 1)[0] == '[');
            assert(s@.subrange(i + 1 + joined(pe).len(), i + 1 + joined(pe).len() + 1)[0] == ']');
        }
    }
    if i >= s.len() || s[i] != '[' {
        proof {
            if let Some(elems) = exp {
                assert(false);
            }
        }
        return None;
    }
    let mut v: Vec<Machine> = Vec::new();
    let mut n: usize = i + 1;
    let ghost mut k: int = 0;
    if n < s.len() && s[n] == ']' {
        proof {
            assert(v.deep_view().map_values(f) =~= Seq::<Seq<char>>::empty());
            assert(s@.subrange(i as int, n + 1) =~= arr_text(v.deep_view().map_values(f)));
            if let Some(elems) = exp {
                let pe = elems.map_values(f);
                if elems.len() > 0 {
                    lemma_machine_text_head(elems[0]);
                    assert(pe[0] == machine_text(elems[0]));
                    assert(joined(pe)[0] == pe[0][0]);
                    assert(s@.subrange(i + 1, i + 1 + joined(pe).len())[0] == joined(pe)[0]);
                    assert(false);
                }
                assert(v.deep_view() =~= elems);
                assert(joined(pe) =~= Seq::<char>::empty());
            }
        }
        return Some((v, n + 1));
    }
    proof {
        if let Some(elems) = exp {
            let pe = elems.map_values(f);
            if elems.len() == 0 {
                assert(joined(pe).len() == 0);
                assert(s@.subrange(i + 1 + joined(pe).len(), i + 1 + joined(pe).len() + 1)[0]
                    == ']');
                assert(false);
            }
            assert(pe =~= pe.take(1) + pe.skip(1));
            lemma_joined_append(pe.take(1), pe.skip(1));
            assert(joined(pe.take(1)) == pe.take(1)[0]);
            assert(pe.take(1)[0] == pe[0]);
            assert(pe[0] == machine_text(elems[0]));
            let rest = (if 1 < elems.len() {
                seq![',']
            } else {
                Seq::<char>::empty()
            }) + joined(pe.skip(1));
            assert(joined(pe) =~= pe[0] + rest);
            lemma_text_at_split(s@, i + 1, pe[0], rest);
        }
    }
    let ghost h0: Option<MachineV> = match exp {
        Some(elems) => Some(elems[0]),
        None => None,
    };
    let (el0, n2) = match parse_machine(s, n, Ghost(h0)) {
        None => {
            proof {
                if let Some(elems) = exp {
                    assert(false);
                }
            }
            return None;
        },
        Some(t) => t,
    };
    let ghost el0v = el0.deep_view();
    v.push(el0);
    n = n2;
    proof {
        k = 1;
        let parts = v.deep_view().map_values(f);
        assert(parts =~= seq![machine_text(el0v)]);
        assert(parts.len() == 1);
        assert(parts[0] == machine_text(el0v));
        assert(joined(parts) == parts[0]);
        assert(s@.subrange(i + 1, n as int) == joined(parts));
        if let Some(elems) = exp {
            let pe = elems.map_values(f);
            assert(el0v == elems[0]);
            assert(v.deep_view() =~= elems.take(1));
            assert(pe.take(1)[0] == pe[0]);
            assert(joined(pe.take(1)) == pe[0]);
            assert(n == i + 1 + joined(pe.take(k)).len());
        }
    }
    loop
        invariant
            i < n <= s@.len(),
            v@.len() >= 1,
            s@.subrange(i + 1, n as int) == joined(v.deep_view().map_values(f)),
            (exp matches Some(elems) ==> 1 <= k <= elems.len() && v.deep_view() == elems.take(k)
                && n == i + 1 + joined(elems.map_values(f).take(k)).len()),
        decreases s@.len() - n,
    {
        proof {
            if let Some(elems) = exp {
                let pe = elems.map_values(f);
                assert(pe =~= pe.take(k) + pe.skip(k));
                lemma_joined_append(pe.take(k), pe.skip(k));
                if k < elems.len() {
                    assert(pe.take(k + 1) =~= pe.take(k).push(pe[k]));
                    lemma_joined_snoc(pe.take(k), pe[k]);
                    assert(pe =~= pe.take(k + 1) + pe.skip(k + 1));
                    lemma_joined_append(pe.take(k + 1), pe.skip(k + 1));
                    lemma_machine_text_head(elems[k]);
                    assert(pe[k] == machine_text(elems[k]));
                    let sep2 = if k + 1 < elems.len() {
                        seq![',']
                    } else {
                        Seq::<char>::empty()
                    };
                    let a = joined(pe.take(k)) + seq![','];
                    let b = pe[k] + (sep2 + joined(pe.skip(k + 1)));
                    assert(joined(pe) =~= a + b);
                    lemma_text_at_split(s@, i + 1, a, b);
                    lemma_text_at_split(s@, i + 1 + a.len(), pe[k], sep2 + joined(pe.skip(k + 1)));
                    assert(a[a.len() - 1] == ',');
                    assert(s@.subrange(i + 1, i + 1 + a.len())[a.len() - 1] == a[a.len() - 1]);
                    assert(s@[n as int] == ',');
                } else {
                    assert(pe.take(k) =~= pe);
                    assert(n == i + 1 + joined(pe).len());
                    assert(s@.subrange(i + 1 + joined(pe).len(), i + 1 + joined(pe).len() + 1)[0]
                        == ']');
                    assert(s@[n as int] == ']');
                }
            }
        }
        if n >= s.len() {
            proof {
                if let Some(elems) = exp {
                    assert(false);
                }
            }
            return None;
        }
        if s[n] == ']' {
            proof {
                assert(s@.subrange(i as int, n + 1) =~= arr_text(v.deep_view().map_values(f)));
                if let Some(elems) = exp {
                    if k < elems.len() {
                        assert(false);
                    }
                    assert(v.deep_view() =~= elems);
                }
            }
            return Some((v, n + 1));
        }
        if s[n] != ',' {
            proof {
                if let Some(elems) = exp {
                    assert(false);
                }
            }
            return None;
        }
        let ghost hk: Option<MachineV> = match exp {
            Some(elems) => Some(elems[k]),
            None => None,
        };
        proof {
            if let Some(elems) = exp {
                if k == elems.len() {
                    assert(false);
                }
            }
        }
        let (el, n3) = match parse_machine(s, n + 1, Ghost(hk)) {
            None => {
                proof {
                    if let Some(elems) = exp {
                        assert(false);
                    }
                }
                return None;
            },
            Some(t) => t,
        };
        let ghost elv = el.deep_view();
        proof {
            assert(s@.subrange(n as int, n + 1) =~= seq![',']);
            lemma_parts_step(
                s@,
                i as int,
                n as int,
                n3 as int,
                v.deep_view().map_values(f),
                machine_text(elv),
            );
        }
        let ghost prev_dv = v.deep_view();
        v.push(el);
        n = n3;
        proof {
            assert(v.deep_view() =~= prev_dv.push(elv));
            assert(v.deep_view().map_values(f) =~= prev_dv.map_values(f).push(machine_text(elv)));
            assert(s@.subrange(i + 1, n as int) == joined(v.deep_view().map_values(f)));
            if let Some(elems) = exp {
                let pe = elems.map_values(f);
                assert(elv == elems[k]);
                assert(v.deep_view() =~= elems.take(k + 1));
                assert(pe.take(k + 1) =~= pe.take(k).push(pe[k]));
                lemma_joined_snoc(pe.take(k), pe[k]);
                assert(n == i + 1 + joined(pe.take(k + 1)).len());
                k = k + 1;
            }
        }
    }
}

/// Consumes a canonical array of workspaces; when the canonical array
/// text of `exp`'s elements stands at `i`, the parse succeeds with
/// exactly those elements.
#[verifier::loop_isolation(false)]
#[verifier::rlimit(100)]
pub(crate) fn parse_workspaces(
    s: &Vec<char>,
    i: usize,
    Ghost(exp): Ghost<Option<Seq<WorkspaceV>>>,
) -> (r: Option<(Vec<Workspace>, usize)>)
    requires
        (exp matches Some(elems) ==> text_at(s@, i as int, workspaces_text(elems))),
    ensures
        (r matches Some((v, n)) ==> i < n <= s@.len() && s@.subrange(i as int, n as int)
            == workspaces_text(v.deep_view())),
        (exp matches Some(elems) ==> (r matches Some((v, n)) && v.deep_view() == elems && n == i
            + workspaces_text(elems).len())),
{
    let ghost f = |x: WorkspaceV| workspace_text(x);
    proof {
        if let Some(elems) = exp {
            let pe = elems.map_values(f);
            assert(workspaces_text(elems) == arr_text(pe));
            assert(arr_text(pe) =~= seq!['['] + (joined(pe) + seq![']']));
            lemma_text_at_split(s@, i as int, seq!['['], joined(pe) + seq![']']);
            lemma_text_at_split(s@, i + 1, joined(pe), seq![']']);
            assert(s@.subrange(i as int, i + 1)[0] == '[');
            assert(s@.subrange(i + 1 + joined(pe).len(), i + 1 + joined(pe).len() + 1)[0] == ']');
        }
    }
    if i >= s.len() || s[i] != '[' {
        proof {
            if let Some(elems) = exp {
                assert(false);
            }
        }
        return None;
    }
    let mut v: Vec<Workspace> = Vec::new();
    let mut n: usize = i + 1;
    let ghost mut k: int = 0;
    if n < s.len() && s[n] == ']' {
        proof {
            assert(v.deep_view().map_values(f) =~= Seq::<Seq<char>>::empty());
            assert(s@.subrange(i as int, n + 1) =~= arr_text(v.deep_view().map_values(f)));
            if let Some(elems) = exp {
                let pe = elems.map_values(f);
                if elems.len() > 0 {
                    lemma_workspace_text_head(elems[0]);
                    assert(pe[0] == workspace_text(elems[0]));
                    assert(joined(pe)[0] == pe[0][0]);
                    assert(s@.subrange(i + 1, i + 1 + joined(pe).len())[0] == joined(pe)[0]);
                    assert(false);
                }
                assert(v.deep_view() =~= elems);
                assert(joined(pe) =~= Seq::<char>::empty());
            }
        }
        return Some((v, n + 1));
    }
    proof {
        if let Some(elems) = exp {
            let pe = elems.map_values(f);
            if elems.len() == 0 {
                assert(joined(pe).len() == 0);
                assert(s@.subrange(i + 1 + joined(pe).len(), i + 1 + joined(pe).len() + 1)[0]
                    == ']');
                assert(false);
            }
            assert(pe =~= pe.take(1) + pe.skip(1));
            lemma_joined_append(pe.take(1), pe.skip(1));
            assert(joined(pe.take(1)) == pe.take(1)[0]);
            assert(pe.take(1)[0] == pe[0]);
            assert(pe[0] == workspace_text(elems[0]));
            let rest = (if 1 < elems.len() {
                seq![',']
            } else {
                Seq::<char>::empty()
            }) + joined(pe.skip(1));
            assert(joined(pe) =~= pe[0] + rest);
            lemma_text_at_split(s@, i + 1, pe[0], rest);
        }
    }
    let ghost h0: Option<WorkspaceV> = match exp {
        Some(elems) => Some(elems[0]),
        None => None,
    };
    let (el0, n2) = match parse_workspace(s, n, Ghost(h0)) {
        None => {
            proof {
                if let Some(elems) = exp {
                    assert(false);
                }
            }
            return None;
        },
        Some(t) => t,
    };
    let ghost el0v = el0.deep_view();
    v.push(el0);
    n = n2;
    proof {
        k = 1;
        let parts = v.deep_view().map_values(f);
        assert(parts =~= seq![workspace_text(el0v)]);
        assert(parts.len() == 1);
        assert(parts[0] == workspace_text(el0v));
        assert(joined(parts) == parts[0]);
        assert(s@.subrange(i + 1, n as int) == joined(parts));
        if let Some(elems) = exp {
            let pe = elems.map_values(f);
            assert(el0v == elems[0]);
            assert(v.deep_view() =~= elems.take(1));
            assert(pe.take(1)[0] == pe[0]);
            assert(joined(pe.take(1)) == pe[0]);
            assert(n == i + 1 + joined(pe.take(k)).len());
        }
    }
    loop
        invariant
            i < n <= s@.len(),
            v@.len() >= 1,
            s@.subrange(i + 1, n as int) == joined(v.deep_view().map_values(f)),
            (exp matches Some(elems) ==> 1 <= k <= elems.len() && v.deep_view() == elems.take(k)
                && n == i + 1 + joined(elems.map_values(f).take(k)).len()),
        decreases s@.len() - n,
    {
        proof {
            if let Some(elems) = exp {
                let pe = elems.map_values(f);
                assert(pe =~= pe.take(k) + pe.skip(k));
                lemma_joined_append(pe.take(k), pe.skip(k));
                if k < elems.len() {
                    assert(pe.take(k + 1) =~= pe.take(k).push(pe[k]));
                    lemma_joined_snoc(pe.take(k), pe[k]);
                    assert(pe =~= pe.take(k + 1) + pe.skip(k + 1));
                    lemma_joined_append(pe.take(k + 1), pe.skip(k + 1));
                    lemma_workspace_text_head(elems[k]);
                    assert(pe[k] == workspace_text(elems[k]));
                    let sep2 = if k + 1 < elems.len() {
                        seq![',']
                    } else {
                        Seq::<char>::empty()
                    };
                    let a = joined(pe.take(k)) + seq![','];
                    let b = pe[k] + (sep2 + joined(pe.skip(k + 1)));
                    assert(joined(pe) =~= a + b);
                    lemma_text_at_split(s@, i + 1, a, b);
                    lemma_text_at_split(s@, i + 1 + a.len(), pe[k], sep2 + joined(pe.skip(k + 1)));
                    assert(a[a.len() - 1] == ',');
                    assert(s@.subrange(i + 1, i + 1 + a.len())[a.len() - 1] == a[a.len() - 1]);
                    assert(s@[n as int] == ',');
                } else {
                    assert(pe.take(k) =~= pe);
                    assert(n == i + 1 + joined(pe).len());
                    assert(s@.subrange(i + 1 + joined(pe).len(), i + 1 + joined(pe).len() + 1)[0]
                        == ']');
                    assert(s@[n as int] == ']');
                }
            }
        }
        if n >= s.len() {
            proof {
                if let Some(elems) = exp {
                    assert(false);
                }
            }
            return None;
        }
        if s[n] == ']' {
            proof {
                assert(s@.subrange(i as int, n + 1) =~= arr_text(v.deep_view().map_values(f)));
                if let Some(elems) = exp {
                    if k < elems.len() {
                        assert(false);
                    }
                    assert(v.deep_view() =~= elems);
                }
            }
            return Some((v, n + 1));
        }
        if s[n] != ',' {
            proof {
                if let Some(elems) = exp {
                    assert(false);
                }
            }
            return None;
        }
        let ghost hk: Option<WorkspaceV> = match exp {
            Some(elems) => Some(elems[k]),
            None => None,
        };
        proof {
            if let Some(elems) = exp {
                if k == elems.len() {
                    assert(false);
                }
            }
        }
        let (el, n3) = match parse_workspace(s, n + 1, Ghost(hk)) {
            None => {
                proof {
                    if let Some(elems) = exp {
                        assert(false);
                    }
                }
                return None;
            },
            Some(t) => t,
        };
        let ghost elv = el.deep_view();
        proof {
            assert(s@.subrange(n as int, n + 1) =~= seq![',']);
            lemma_parts_step(
                s@,
                i as int,
                n as int,
                n3 as int,
                v.deep_view().map_values(f),
                workspace_text(elv),
            );
        }
        let ghost prev_dv = v.deep_view();
        v.push(el);
        n = n3;
        proof {
            assert(v.deep_view() =~= prev_dv.push(elv));
            assert(v.deep_view().map_values(f) =~= prev_dv.map_values(f).push(workspace_text(elv)));
            assert(s@.subrange(i + 1, n as int) == joined(v.deep_view().map_values(f)));
            if let Some(elems) = exp {
                let pe = elems.map_values(f);
                assert(elv == elems[k]);
                assert(v.deep_view() =~= elems.take(k + 1));
                assert(pe.take(k + 1) =~= pe.take(k).push(pe[k]));
                lemma_joined_snoc(pe.take(k), pe[k]);
                assert(n == i + 1 + joined(pe.take(k + 1)).len());
                k = k + 1;
            }
        }
    }
}

/// Consumes one canonical port object; when the canonical text of
/// `exp`'s port stands at `i`, the parse succeeds with exactly that
/// port.
#[verifier::rlimit(100)]
pub(crate) fn parse_port(s: &Vec<char>, i: usize, Ghost(exp): Ghost<Option<PortV>>) -> (r: Option<
    (Port, usize),
>)
    requires
        (exp matches Some(pv) ==> text_at(s@, i as int, port_text(pv))),
    ensures
        (r matches Some((v, n)) ==> i < n <= s@.len() && s@.subrange(i as int, n as int)
            == port_text(v.deep_view())),
        (exp matches Some(pv) ==> (r matches Some((v, n)) && v.deep_view() == pv && n == i
            + port_text(pv).len())),
{
    proof {
        reveal(port_text);
        reveal_strlit(",\"state\":");
        if let Some(pv) = exp {
            lemma_dec_digits_props(pv.number as u64);
            let t12 = seq!['}'];
            let t11 = notes_text(pv.notes) + t12;
            let t10 = ",\"notes\":"@ + t11;
            let t9 = quoted(pv.state) + t10;
            let t8 = ",\"state\":"@ + t9;
            let t7 = dec_digits(pv.number as u64) + t8;
            let t6 = ",\"number\":"@ + t7;
            let t5 = quoted(pv.protocol) + t6;
            let t4 = ",\"protocol\":"@ + t5;
            let t3 = quoted(pv.application) + t4;
            let t2 = ",\"application\":"@ + t3;
            let t1 = quoted(pv.service) + t2;
            assert(t1 =~= quoted(pv.service) + t2);
            assert(port_text(pv) =~= "{\"service\":"@ + t1);
            lemma_text_at_split(s@, i as int, "{\"service\":"@, t1);
            let p1 = i + "{\"service\":"@.len();
            assert(t1 =~= quoted(pv.service) + t2);
            lemma_text_at_split(s@, p1, quoted(pv.service), t2);
            let p2 = p1 + quoted(pv.service).len();
            assert(t2 =~= ",\"application\":"@ + t3);
            lemma_text_at_split(s@, p2, ",\"application\":"@, t3);
            let p3 = p2 + ",\"application\":"@.len();
            assert(t3 =~= quoted(pv.application) + t4);
            lemma_text_at_split(s@, p3, quoted(pv.application), t4);
            let p4 = p3 + quoted(pv.application).len();
            assert(t4 =~= ",\"protocol\":"@ + t5);
            lemma_text_at_split(s@, p4, ",\"protocol\":"@, t5);
            let p5 = p4 + ",\"protocol\":"@.len();
            assert(t5 =~= quoted(pv.protocol) + t6);
            lemma_text_at_split(s@, p5, quoted(pv.protocol), t6);
            let p6 = p5 + quoted(pv.protocol).len();
            assert(t6 =~= ",\"number\":"@ + t7);
            lemma_text_at_split(s@, p6, ",\"number\":"@, t7);
            let p7 = p6 + ",\"number\":"@.len();
            assert(t7 =~= dec_digits(pv.number as u64) + t8);
            lemma_text_at_split(s@, p7, dec_digits(pv.number as u64), t8);
            let p8 = p7 + dec_digits(pv.number as u64).len();
            assert(t8 =~= ",\"state\":"@ + t9);
            lemma_text_at_split(s@, p8, ",\"state\":"@, t9);
            assert(s@.subrange(p8, p8 + ",\"state\":"@.len())[0] == ',');
            let p9 = p8 + ",\"state\":"@.len();
            assert(t9 =~= quoted(pv.state) + t10);
            lemma_text_at_split(s@, p9, quoted(pv.state), t10);
            let p10 = p9 + quoted(pv.state).len();
            assert(t10 =~= ",\"notes\":"@ + t11);
            lemma_text_at_split(s@, p10, ",\"notes\":"@, t11);
            let p11 = p10 + ",\"notes\":"@.len();
            assert(t11 =~= notes_text(pv.notes) + t12);
            lemma_text_at_split(s@, p11, notes_text(pv.notes), t12);
        }
    }
    let n1 = match expect_lit(s, i, "{\"service\":") {
        None => {
            proof {
                if let Some(pv) = exp {
                    assert(false);
                }
            }
            return None;
        },
        Some(n) => n,
    };
    let ghost hserv: Option<Seq<char>> = match exp {
        Some(pv) => Some(pv.service),
        None => None,
    };
    let (service, n2) = match parse_string(s, n1, Ghost(hserv)) {
        None => {
            proof {
                if let Some(pv) = exp {
                    assert(false);
                }
            }
            return None;
        },
        Some(t) => t,
    };
    let n3 = match expect_lit(s, n2, ",\"application\":") {
        None => {
            proof {
                if let Some(pv) = exp {
                    assert(false);
                }
            }
            return None;
        },
        Some(n) => n,
    };
    let ghost happ: Option<Seq<char>> = match exp {
        Some(pv) => Some(pv.application),
        None => None,
    };
    let (application, n4) = match parse_string(s, n3, Ghost(happ)) {
        None => {
            proof {
                if let Some(pv) = exp {
                    assert(false);
                }
            }
            return None;
        },
        Some(t) => t,
    };
    let n5 = match expect_lit(s, n4, ",\"protocol\":") {
        None => {
            proof {
                if let Some(pv) = exp {
                    assert(false);
                }
            }
            return None;
        },
        Some(n) => n,
    };
    let ghost hproto: Option<Seq<char>> = match exp {
        Some(pv) => Some(pv.protocol),
        None => None,
    };
    let (protocol, n6) = match parse_string(s, n5, Ghost(hproto)) {
        None => {
            proof {
                if let Some(pv) = exp {
                    assert(false);
                }
            }
            return None;
        },
        Some(t) => t,
    };
    let n7 = match expect_lit(s, n6, ",\"number\":") {
        None => {
            proof {
                if let Some(pv) = exp {
                    assert(false);
                }
            }
            return None;
        },
        Some(n) => n,
    };
    let ghost hnum: Option<u64> = match exp {
        Some(pv) => Some(pv.number as u64),
        None => None,
    };
    let (numval, n8) = match parse_u64(s, n7, Ghost(hnum)) {
        None => {
            proof {
                if let Some(pv) = exp {
                    assert(false);
                }
            }
            return None;
        },
        Some(t) => t,
    };
    if numval > u16::MAX as u64 {
        proof {
            if let Some(pv) = exp {
                assert(false);
            }
        }
        return None;
    }
    let number = numval as u16;
    let n9 = match expect_lit(s, n8, ",\"state\":") {
        None => {
            proof {
                if let Some(pv) = exp {
                    assert(false);
                }
            }
            return None;
        },
        Some(n) => n,
    };
    let ghost hstate: Option<Seq<char>> = match exp {
        Some(pv) => Some(pv.state),
        None => None,
    };
    let (state, n10) = match parse_string(s, n9, Ghost(hstate)) {
        None => {
            proof {
                if let Some(pv) = exp {
                    assert(false);
                }
            }
            return None;
        },
        Some(t) => t,
    };
    let n11 = match expect_lit(s, n10, ",\"notes\":") {
        None => {
            proof {
                if let Some(pv) = exp {
                    assert(false);
                }
            }
            return None;
        },
        Some(n) => n,
    };
    let ghost hnotes: Option<Seq<NoteV>> = match exp {
        Some(pv) => Some(pv.notes),
        None => None,
    };
    let (notes, n12) = match parse_notes(s, n11, Ghost(hnotes)) {
        None => {
            proof {
                if let Some(pv) = exp {
                    assert(false);
                }
            }
            return None;
        },
        Some(t) => t,
    };
    if n12 >= s.len() || s[n12] != '}' {
        proof {
            if let Some(pv) = exp {
                assert(s@.subrange(n12 as int, n12 + 1)[0] == '}');
                assert(false);
            }
        }
        return None;
    }
    let out = Port { service, application, protocol, number, state, notes };
    proof {
        lemma_glue(s@, i as int, n1 as int, n2 as int);
        lemma_glue(s@, i as int, n2 as int, n3 as int);
        lemma_glue(s@, i as int, n3 as int, n4 as int);
        lemma_glue(s@, i as int, n4 as int, n5 as int);
        lemma_glue(s@, i as int, n5 as int, n6 as int);
        lemma_glue(s@, i as int, n6 as int, n7 as int);
        lemma_glue(s@, i as int, n7 as int, n8 as int);
        lemma_glue(s@, i as int, n8 as int, n9 as int);
        lemma_glue(s@, i as int, n9 as int, n10 as int);
        lemma_glue(s@, i as int, n10 as int, n11 as int);
        lemma_glue(s@, i as int, n11 as int, n12 as int);
        assert(s@.subrange(n12 as int, n12 + 1) =~= seq!['}']);
        lemma_glue(s@, i as int, n12 as int, n12 + 1);
        reveal(port_text);
        assert(s@.subrange(i as int, n12 + 1) =~= port_text(out.deep_view()));
        if let Some(pv) = exp {
            assert(out.deep_view() =~~= pv);
        }
    }
    Some((out, n12 + 1))
}

/// Consumes one canonical machine object; when the canonical text of
/// `exp`'s machine stands at `i`, the parse succeeds with exactly
/// that machine.
#[verifier::rlimit(100)]
pub(crate) fn parse_machine(s: &Vec<char>, i: usize, Ghost(exp): Ghost<Option<MachineV>>) -> (r:
    Option<(Machine, usize)>)
    requires
        (exp matches Some(mv) ==> text_at(s@, i as int, machine_text(mv))),
    ensures
        (r matches Some((v, n)) ==> i < n <= s@.len() && s@.subrange(i as int, n as int)
            == machine_text(v.deep_view())),
        (exp matches Some(mv) ==> (r matches Some((v, n)) && v.deep_view() == mv && n == i
            + machine_text(mv).len())),
{
    proof {
        reveal(machine_text);
        reveal_strlit(",\"hostname\":");
        if let Some(mv) = exp {
            lemma_dec_digits_props(mv.id as u64);
            let t10 = seq!['}'];
            let t9 = ports_text(mv.ports) + t10;
            let t8 = ",\"ports\":"@ + t9;
            let t7 = quoted(mv.ip) + t8;
            let t6 = ",\"ip\":"@ + t7;
            let t5 = quoted(mv.icon) + t6;
            let t4 = ",\"icon\":"@ + t5;
            let t3 = quoted(mv.hostname) + t4;
            let t2 = ",\"hostname\":"@ + t3;
            let t1 = dec_digits(mv.id as u64) + t2;
            assert(machine_text(mv) =~= "{\"id\":"@ + t1);
            lemma_text_at_split(s@, i as int, "{\"id\":"@, t1);
            let p1 = i + "{\"id\":"@.len();
            assert(t1 =~= dec_digits(mv.id as u64) + t2);
            lemma_text_at_split(s@, p1, dec_digits(mv.id as u64), t2);
            let p2 = p1 + dec_digits(mv.id as u64).len();
            assert(t2 =~= ",\"hostname\":"@ + t3);
            lemma_text_at_split(s@, p2, ",\"hostname\":"@, t3);
            assert(s@.subrange(p2, p2 + ",\"hostname\":"@.len())[0] == ',');
            let p3 = p2 + ",\"hostname\":"@.len();
            assert(t3 =~= quoted(mv.hostname) + t4);
            lemma_text_at_split(s@, p3, quoted(mv.hostname), t4);
            let p4 = p3 + quoted(mv.hostname).len();
            assert(t4 =~= ",\"icon\":"@ + t5);
            lemma_text_at_split(s@, p4, ",\"icon\":"@, t5);
            let p5 = p4 + ",\"icon\":"@.len();
            assert(t5 =~= quoted(mv.icon) + t6);
            lemma_text_at_split(s@, p5, quoted(mv.icon), t6);
            let p6 = p5 + quoted(mv.icon).len();
            assert(t6 =~= ",\"ip\":"@ + t7);
            lemma_text_at_split(s@, p6, ",\"ip\":"@, t7);
            let p7 = p6 + ",\"ip\":"@.len();
            assert(t7 =~= quoted(mv.ip) + t8);
            lemma_text_at_split(s@, p7, quoted(mv.ip), t8);
            let p8 = p7 + quoted(mv.ip).len();
            assert(t8 =~= ",\"ports\":"@ + t9);
            lemma_text_at_split(s@, p8, ",\"ports\":"@, t9);
            let p9 = p8 + ",\"ports\":"@.len();
            assert(t9 =~= ports_text(mv.ports) + t10);
            lemma_text_at_split(s@, p9, ports_text(mv.ports), t10);
        }
    }
    let n1 = match expect_lit(s, i, "{\"id\":") {
        None => {
            proof {
                if let Some(mv) = exp {
                    assert(false);
                }
            }
            return None;
        },
        Some(n) => n,
    };
    let ghost hid: Option<u64> = match exp {
        Some(mv) => Some(mv.id as u64),
        None => None,
    };
    let (idval, n2) = match parse_u64(s, n1, Ghost(hid)) {
        None => {
            proof {
                if let Some(mv) = exp {
                    assert(false);
                }
            }
            return None;
        },
        Some(t) => t,
    };
    if idval > u32::MAX as u64 {
        proof {
            if let Some(mv) = exp {
                assert(false);
            }
        }
        return None;
    }
    let id = idval as u32;
    let n3 = match expect_lit(s, n2, ",\"hostname\":") {
        None => {
            proof {
                if let Some(mv) = exp {
                    assert(false);
                }
            }
            return None;
        },
        Some(n) => n,
    };
    let ghost hhost: Option<Seq<char>> = match exp {
        Some(mv) => Some(mv.hostname),
        None => None,
    };
    let (hostname, n4) = match parse_string(s, n3, Ghost(hhost)) {
        None => {
            proof {
                if let Some(mv) = exp {
                    assert(false);
                }
            }
            return None;
        },
        Some(t) => t,
    };
    let n5 = match expect_lit(s, n4, ",\"icon\":") {
        None => {
            proof {
                if let Some(mv) = exp {
                    assert(false);
                }
            }
            return None;
        },
        Some(n) => n,
    };
    let ghost hicon: Option<Seq<char>> = match exp {
        Some(mv) => Some(mv.icon),
        None => None,
    };
    let (icon, n6) = match parse_string(s, n5, Ghost(hicon)) {
        None => {
            proof {
                if let Some(mv) = exp {
                    assert(false);
                }
            }
            return None;
        },
        Some(t) => t,
    };
    let n7 = match expect_lit(s, n6, ",\"ip\":") {
        None => {
            proof {
                if let Some(mv) = exp {
                    assert(false);
                }
            }
            return None;
        },
        Some(n) => n,
    };
    let ghost hip: Option<Seq<char>> = match exp {
        Some(mv) => Some(mv.ip),
        None => None,
    };
    let (ip, n8) = match parse_string(s, n7, Ghost(hip)) {
        None => {
            proof {
                if let Some(mv) = exp {
                    assert(false);
                }
            }
            return None;
        },
        Some(t) => t,
    };
    let n9 = match expect_lit(s, n8, ",\"ports\":") {
        None => {
            proof {
                if let Some(mv) = exp {
                    assert(false);
                }
            }
            return None;
        },
        Some(n) => n,
    };
    let ghost hports: Option<Seq<PortV>> = match exp {
        Some(mv) => Some(mv.ports),
        None => None,
    };
    let (ports, n10) = match parse_ports(s, n9, Ghost(hports)) {
        None => {
            proof {
                if let Some(mv) = exp {
                    assert(false);
                }
            }
            return None;
        },
        Some(t) => t,
    };
    if n10 >= s.len() || s[n10] != '}' {
        proof {
            if let Some(mv) = exp {
                assert(s@.subrange(n10 as int, n10 + 1)[0] == '}');
                assert(false);
            }
        }
        return None;
    }
    let out = Machine { id, hostname, icon, ip, ports };
    proof {
        reveal(machine_text);
        lemma_glue(s@, i as int, n1 as int, n2 as int);
        lemma_glue(s@, i as int, n2 as int, n3 as int);
        lemma_glue(s@, i as int, n3 as int, n4 as int);
        lemma_glue(s@, i as int, n4 as int, n5 as int);
        lemma_glue(s@, i as int, n5 as int, n6 as int);
        lemma_glue(s@, i as int, n6 as int, n7 as int);
        lemma_glue(s@, i as int, n7 as int, n8 as int);
        lemma_glue(s@, i as int, n8 as int, n9 as int);
        lemma_glue(s@, i as int, n9 as int, n10 as int);
        assert(s@.subrange(n10 as int, n10 + 1) =~= seq!['}']);
        lemma_glue(s@, i as int, n10 as int, n10 + 1);
        assert(s@.subrange(i as int, n10 + 1) =~= machine_text(out.deep_view()));
        if let Some(mv) = exp {
            assert(out.deep_view() =~~= mv);
        }
    }
    Some((out, n10 + 1))
}

/// Consumes one canonical workspace object; when the canonical text
/// of `exp`'s workspace stands at `i`, the parse succeeds with
/// exactly that workspace.
#[verifier::rlimit(100)]
pub(crate) fn parse_workspace(s: &Vec<char>, i: usize, Ghost(exp): Ghost<Option<WorkspaceV>>) -> (r:
    Option<(Workspace, usize)>)
    requires
        (exp matches Some(wv) ==> text_at(s@, i as int, workspace_text(wv))),
    ensures
        (r matches Some((v, n)) ==> i < n <= s@.len() && s@.subrange(i as int, n as int)
            == workspace_text(v.deep_view())),
        (exp matches Some(wv) ==> (r matches Some((v, n)) && v.deep_view() == wv && n == i
            + workspace_text(wv).len())),
{
    proof {
        reveal(workspace_text);
        reveal_strlit(",\"name\":");
        if let Some(wv) = exp {
            lemma_dec_digits_props(wv.id as u64);
            let t8 = seq!['}'];
            let t7 = machines_text(wv.machines) + t8;
            let t6 = ",\"machines\":"@ + t7;
            let t5 = quoted(wv.ip_range) + t6;
            let t4 = ",\"ip_range\":"@ + t5;
            let t3 = quoted(wv.name) + t4;
            let t2 = ",\"name\":"@ + t3;
            let t1 = dec_digits(wv.id as u64) + t2;
            assert(workspace_text(wv) =~= "{\"id\":"@ + t1);
            lemma_text_at_split(s@, i as int, "{\"id\":"@, t1);
            let p1 = i + "{\"id\":"@.len();
            assert(t1 =~= dec_digits(wv.id as u64) + t2);
            lemma_text_at_split(s@, p1, dec_digits(wv.id as u64), t2);
            let p2 = p1 + dec_digits(wv.id as u64).len();
            assert(t2 =~= ",\"name\":"@ + t3);
            lemma_text_at_split(s@, p2, ",\"name\":"@, t3);
            assert(s@.subrange(p2, p2 + ",\"name\":"@.len())[0] == ',');
            let p3 = p2 + ",\"name\":"@.len();
            assert(t3 =~= quoted(wv.name) + t4);
            lemma_text_at_split(s@, p3, quoted(wv.name), t4);
            let p4 = p3 + quoted(wv.name).len();
            assert(t4 =~= ",\"ip_range\":"@ + t5);
            lemma_text_at_split(s@, p4, ",\"ip_range\":"@, t5);
            let p5 = p4 + ",\"ip_range\":"@.len();
            assert(t5 =~= quoted(wv.ip_range) + t6);
            lemma_text_at_split(s@, p5, quoted(wv.ip_range), t6);
            let p6 = p5 + quoted(wv.ip_range).len();
            assert(t6 =~= ",\"machines\":"@ + t7);
            lemma_text_at_split(s@, p6, ",\"machines\":"@, t7);
            let p7 = p6 + ",\"machines\":"@.len();
            assert(t7 =~= machines_text(wv.machines) + t8);
            lemma_text_at_split(s@, p7, machines_text(wv.machines), t8);
        }
    }
    let n1 = match expect_lit(s, i, "{\"id\":") {
        None => {
            proof {
                if let Some(wv) = exp {
                    assert(false);
                }
            }
            return None;
        },
        Some(n) => n,
    };
    let ghost hid: Option<u64> = match exp {
        Some(wv) => Some(wv.id as u64),
        None => None,
    };
    let (idval, n2) = match parse_u64(s, n1, Ghost(hid)) {
        None => {
            proof {
                if let Some(wv) = exp {
                    assert(false);
                }
            }
            return None;
        },
        Some(t) => t,
    };
    if idval > u32::MAX as u64 {
        proof {
            if let Some(wv) = exp {
                assert(false);
            }
        }
        return None;
    }
    let id = idval as u32;
    let n3 = match expect_lit(s, n2, ",\"name\":") {
        None => {
            proof {
                if let Some(wv) = exp {
                    assert(false);
                }
            }
            return None;
        },
        Some(n) => n,
    };
    let ghost hname: Option<Seq<char>> = match exp {
        Some(wv) => Some(wv.name),
        None => None,
    };
    let (name, n4) = match parse_string(s, n3, Ghost(hname)) {
        None => {
            proof {
                if let Some(wv) = exp {
                    assert(false);
                }
            }
            return None;
        },
        Some(t) => t,
    };
    let n5 = match expect_lit(s, n4, ",\"ip_range\":") {
        None => {
            proof {
                if let Some(wv) = exp {
                    assert(false);
                }
            }
            return None;
        },
        Some(n) => n,
    };
    let ghost hrange: Option<Seq<char>> = match exp {
        Some(wv) => Some(wv.ip_range),
        None => None,
    };
    let (ip_range, n6) = match parse_string(s, n5, Ghost(hrange)) {
        None => {
            proof {
                if let Some(wv) = exp {
                    assert(false);
                }
            }
            return None;
        },
        Some(t) => t,
    };
    let n7 = match expect_lit(s, n6, ",\"machines\":") {
        None => {
            proof {
                if let Some(wv) = exp {
                    assert(false);
                }
            }
            return None;
        },
        Some(n) => n,
    };
    let ghost hms: Option<Seq<MachineV>> = match exp {
        Some(wv) => Some(wv.machines),
        None => None,
    };
    let (machines, n8) = match parse_machines(s, n7, Ghost(hms)) {
        None => {
            proof {
                if let Some(wv) = exp {
                    assert(false);
                }
            }
            return None;
        },
        Some(t) => t,
    };
    if n8 >= s.len() || s[n8] != '}' {
        proof {
            if let Some(wv) = exp {
                assert(s@.subrange(n8 as int, n8 + 1)[0] == '}');
                assert(false);
            }
        }
        return None;
    }
    let out = Workspace { id, name, ip_range, machines };
    proof {
        reveal(workspace_text);
        lemma_glue(s@, i as int, n1 as int, n2 as int);
        lemma_glue(s@, i as int, n2 as int, n3 as int);
        lemma_glue(s@, i as int, n3 as int, n4 as int);
        lemma_glue(s@, i as int, n4 as int, n5 as int);
        lemma_glue(s@, i as int, n5 as int, n6 as int);
        lemma_glue(s@, i as int, n6 as int, n7 as int);
        lemma_glue(s@, i as int, n7 as int, n8 as int);
        assert(s@.subrange(n8 as int, n8 + 1) =~= seq!['}']);
        lemma_glue(s@, i as int, n8 as int, n8 + 1);
        assert(s@.subrange(i as int, n8 + 1) =~= workspace_text(out.deep_view()));
        if let Some(wv) = exp {
            assert(out.deep_view() =~~= wv);
        }
    }
    Some((out, n8 + 1))
}

/// Consumes a whole canonical document; nothing may follow it.  When
/// the input is exactly the canonical text of `exp`'s store, the
/// parse succeeds with exactly that store.
#[verifier::rlimit(100)]
pub(crate) fn parse_store_doc(s: &Vec<char>, Ghost(exp): Ghost<Option<StoreV>>) -> (r: Option<
    Store,
>)
    requires
        (exp matches Some(stv) ==> s@ == store_text(stv)),
    ensures
        (r matches Some(st) ==> s@ == store_text(st.deep_view())),
        (exp matches Some(stv) ==> (r matches Some(st) && st.deep_view() == stv)),
{
    proof {
        if let Some(stv) = exp {
            assert(s@.subrange(0, store_text(stv).len() as int) =~= store_text(stv));
            assert(text_at(s@, 0, store_text(stv)));
            let t4 = seq!['}'];
            let t3 = workspaces_text(stv.workspaces) + t4;
            let t2 = ",\"data\":"@ + t3;
            let t1 = quoted(stv.name) + t2;
            assert(store_text(stv) =~= "{\"name\":"@ + t1);
            lemma_text_at_split(s@, 0, "{\"name\":"@, t1);
            let p1: int = "{\"name\":"@.len() as int;
            assert(t1 =~= quoted(stv.name) + t2);
            lemma_text_at_split(s@, p1, quoted(stv.name), t2);
            let p2 = p1 + quoted(stv.name).len();
            assert(t2 =~= ",\"data\":"@ + t3);
            lemma_text_at_split(s@, p2, ",\"data\":"@, t3);
            let p3 = p2 + ",\"data\":"@.len();
            assert(t3 =~= workspaces_text(stv.workspaces) + t4);
            lemma_text_at_split(s@, p3, workspaces_text(stv.workspaces), t4);
        }
    }
    let n1 = match expect_lit(s, 0, "{\"name\":") {
        None => {
            proof {
                if let Some(stv) = exp {
                    assert(false);
                }
            }
            return None;
        },
        Some(n) => n,
    };
    let ghost hname: Option<Seq<char>> = match exp {
        Some(stv) => Some(stv.name),
        None => None,
    };
    let (name, n2) = match parse_string(s, n1, Ghost(hname)) {
        None => {
            proof {
                if let Some(stv) = exp {
                    assert(false);
                }
            }
            return None;
        },
        Some(t) => t,
    };
    let n3 = match expect_lit(s, n2, ",\"data\":") {
        None => {
            proof {
                if let Some(stv) = exp {
                    assert(false);
                }
            }
            return None;
        },
        Some(n) => n,
    };
    let ghost hwss: Option<Seq<WorkspaceV>> = match exp {
        Some(stv) => Some(stv.workspaces),
        None => None,
    };
    let (workspaces, n4) = match parse_workspaces(s, n3, Ghost(hwss)) {
        None => {
            proof {
                if let Some(stv) = exp {
                    assert(false);
                }
            }
            return None;
        },
        Some(t) => t,
    };
    if n4 >= s.len() || s[n4] != '}' {
        proof {
            if let Some(stv) = exp {
                assert(s@.subrange(n4 as int, n4 + 1)[0] == '}');
                assert(false);
            }
        }
        return None;
    }
    if n4 + 1 != s.len() {
        proof {
            if let Some(stv) = exp {
                assert(false);
            }
        }
        return None;
    }
    let out = Store { name, workspaces };
    proof {
        lemma_glue(s@, 0, n1 as int, n2 as int);
        lemma_glue(s@, 0, n2 as int, n3 as int);
        lemma_glue(s@, 0, n3 as int, n4 as int);
        assert(s@.subrange(n4 as int, n4 + 1) =~= seq!['}']);
        lemma_glue(s@, 0, n4 as int, n4 + 1);
        assert(s@.subrange(0, s@.len() as int) =~= s@);
        assert(s@ =~= store_text(out.deep_view()));
        if let Some(stv) = exp {
            assert(out.deep_view() =~~= stv);
        }
    }
    Some(out)
}

impl Store {
    /// Reads a store from its canonical document text: the inverse of
    /// `save` on every document `save` writes.  It returns the store
    /// whenever the text is the canonical document of some well-formed
    /// store — so nothing a well-formed store saves is ever lost — and
    /// treats any other text as unreadable, on which the caller falls
    /// back to the empty default.
    pub fn load(text: &str) -> (r: Option<Store>)
        ensures
            r matches Some(st) ==> text@ == store_text(st.deep_view()) && st.wf(),
            r is None ==> !(exists|stv: StoreV| store_wf(stv) && text@ == store_text(stv)),
    {
        let ghost hint: Option<StoreV> = if exists|stv: StoreV|
            store_wf(stv) && text@ == store_text(stv) {
            Some(choose|stv: StoreV| store_wf(stv) && text@ == store_text(stv))
        } else {
            None
        };
        let chars = crate::json::chars_of_str(text);
        let st = match parse_store_doc(&chars, Ghost(hint)) {
            None => {
                proof {
                    if let Some(stv) = hint {
                        assert(false);
                    }
                }
                return None;
            },
            Some(s) => s,
        };
        if !st.check_wf() {
            proof {
                if let Some(stv) = hint {
                    assert(st.deep_view() == stv);
                    assert(false);
                }
            }
            return None;
        }
        Some(st)
    }
}

/// Round-trip persistence law: saving what was loaded is a no-op on
/// the document.  Whenever the text is a canonical well-formed
/// document, it loads, and the text written back by saving the loaded
/// store is that text, letter for letter; any other text does not
/// load at all.
pub fn save_after_load(text: &str) -> (r: Option<String>)
    ensures
        r matches Some(out) ==> out@ == text@,
        r is None ==> !(exists|stv: StoreV| store_wf(stv) && text@ == store_text(stv)),
{
    match Store::load(text) {
        None => None,
        Some(st) => Some(st.save()),
    }
}


/// Round-trip persistence law, the loading direction: the canonical
/// document a well-formed store saves parses back to a store equal to
/// it, field for field.
pub fn load_after_save(st: &Store) -> (r: Option<Store>)
    requires
        st.wf(),
    ensures
        r matches Some(t) && t.deep_view() == st.deep_view() && t.wf(),
{
    let text = st.save();
    let chars = crate::json::chars_of_str(text.as_str());
    match parse_store_doc(&chars, Ghost(Some(st.deep_view()))) {
        Some(t) => Some(t),
        None => {
            proof {
                assert(false);
            }
            None
        },
    }
}

} // verus!
