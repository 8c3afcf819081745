//! The linking pass: replacing name-typed references inside gates with
//! direct arena indices.
//!
//! A reference still holding a textual name is bound to the first wire whose
//! name matches, exactly as a linear search over the arena finds it; a name
//! that no wire carries stays unresolved forever (a dangling input).
//! Resolution is idempotent: an already-resolved reference is left alone.

use vstd::prelude::*;

use crate::wires::Connection;
use crate::wires::ConnectionView;
use crate::wires::Gate;
use crate::wires::GateView;
use crate::wires::Input;
use crate::wires::InputView;
use crate::wires::WireView;
use crate::wires::gate_raw;
use crate::wires::gate_wf;
use crate::wires::has_name;
use crate::wires::input_raw;
use crate::wires::input_wf;
use crate::wires::names_of;
use crate::wires::str_eq;
use crate::semantics::gate_abs;
use crate::semantics::input_abs;

verus! {

/// The index of the first occurrence of a name in a list of names, or a
/// negative value when the name does not occur.
pub open spec fn first_index(names: Seq<Seq<char>>, n: Seq<char>) -> int
    decreases names.len(),
{
    if names.len() == 0 {
        -1
    } else if names[0] == n {
        0
    } else {
        let r = first_index(names.drop_first(), n);
        if r < 0 {
            -1
        } else {
            1 + r
        }
    }
}

/// What `first_index` finds: the first matching position, if any.
pub proof fn lemma_first_index(names: Seq<Seq<char>>, n: Seq<char>)
    ensures
        first_index(names, n) < 0 ==> forall|i: int| 0 <= i < names.len() ==> names[i] != n,
        first_index(names, n) >= 0 ==> 0 <= first_index(names, n) < names.len() && names[first_index(
            names,
            n,
        )] == n && forall|i: int| 0 <= i < first_index(names, n) ==> names[i] != n,
    decreases names.len(),
{
    if names.len() > 0 && names[0] != n {
        lemma_first_index(names.drop_first(), n);
        let r = first_index(names.drop_first(), n);
        assert(forall|i: int| 0 <= i < names.drop_first().len() ==> names.drop_first()[i]
            == names[i + 1]);
        if r < 0 {
            assert forall|i: int| 0 <= i < names.len() implies names[i] != n by {
                if i > 0 {
                    assert(names.drop_first()[i - 1] != n);
                }
            }
        } else {
            assert forall|i: int| 0 <= i < first_index(names, n) implies names[i] != n by {
                if i > 0 {
                    assert(names.drop_first()[i - 1] != n);
                }
            }
        }
    }
}

/// The views of a list of name strings.
pub open spec fn name_views(names: Seq<String>) -> Seq<Seq<char>> {
    names.map_values(|s: String| s@)
}

/// Linear search for a name: the first matching index, if any.
fn find_name(names: &Vec<String>, target: &str) -> (r: Option<usize>)
    ensures
        r is Some ==> r->Some_0 == first_index(name_views(names@), target@),
        r is None ==> first_index(name_views(names@), target@) < 0,
{
    let ghost nv = name_views(names@);
    let mut i: usize = 0;
    while i < names.len()
        invariant
            i <= names.len(),
            nv == name_views(names@),
            nv.len() == names@.len(),
            forall|k: int| 0 <= k < i ==> nv[k] != target@,
        decreases names.len() - i,
    {
        if str_eq(names[i].as_str(), target) {
            proof {
                lemma_first_index(nv, target@);
                assert(nv[i as int] == target@);
            }
            return Some(i);
        }
        i += 1;
    }
    proof {
        lemma_first_index(nv, target@);
    }
    None
}

/// What linking does to one input: a name still unresolved is bound to the
/// first wire carrying it, if any; everything else is left alone.
pub open spec fn resolve_input(names: Seq<Seq<char>>, a: InputView) -> InputView {
    match a {
        InputView::Connection(ConnectionView::Disconnected(n)) => {
            let fi = first_index(names, n);
            if fi >= 0 {
                InputView::Connection(ConnectionView::Connected(fi))
            } else {
                a
            }
        },
        _ => a,
    }
}

/// What linking does to a whole gate, input by input.
pub open spec fn resolve_gate(names: Seq<Seq<char>>, g: GateView) -> GateView {
    match g {
        GateView::Single(a) => GateView::Single(resolve_input(names, a)),
        GateView::And(a, b) => GateView::And(resolve_input(names, a), resolve_input(names, b)),
        GateView::Or(a, b) => GateView::Or(resolve_input(names, a), resolve_input(names, b)),
        GateView::RShift(a, k) => GateView::RShift(resolve_input(names, a), k),
        GateView::LShift(a, k) => GateView::LShift(resolve_input(names, a), k),
        GateView::Not(a) => GateView::Not(resolve_input(names, a)),
    }
}

/// Bind one input against the list of wire names.
fn resolve_input_exec(inp: &mut Input, names: &Vec<String>)
    ensures
        final(inp)@ == resolve_input(name_views(names@), old(inp)@),
{
    let found: Option<usize> = match &*inp {
        Input::Connection(Connection::Disconnected(n)) => find_name(names, n.as_str()),
        _ => None,
    };
    if let Some(j) = found {
        *inp = Input::Connection(Connection::Connected(j));
    }
}

/// Resolving a raw input against an arena's own names leaves it well formed:
/// a bound reference lands inside the arena, and a name left unresolved is
/// carried by no wire.
proof fn lemma_resolve_input_wf(ws: Seq<WireView>, a: InputView)
    requires
        input_raw(a),
    ensures
        input_wf(ws, resolve_input(names_of(ws), a)),
{
    match a {
        InputView::Connection(ConnectionView::Disconnected(n)) => {
            lemma_first_index(names_of(ws), n);
            let fi = first_index(names_of(ws), n);
            if fi < 0 {
                assert forall|i: int| 0 <= i < ws.len() implies ws[i].name != n by {
                    assert(names_of(ws)[i] != n);
                }
                assert(!has_name(ws, resolve_input(names_of(ws), a)->Connection_0
                    ->Disconnected_0));
            }
        },
        _ => {},
    }
}

/// Resolving a raw gate against an arena's own names leaves it well formed.
pub proof fn lemma_resolve_wf(ws: Seq<WireView>, g: GateView)
    requires
        gate_raw(g),
    ensures
        gate_wf(ws, resolve_gate(names_of(ws), g)),
{
    match g {
        GateView::Single(a) => {
            lemma_resolve_input_wf(ws, a);
        },
        GateView::And(a, b) => {
            lemma_resolve_input_wf(ws, a);
            lemma_resolve_input_wf(ws, b);
        },
        GateView::Or(a, b) => {
            lemma_resolve_input_wf(ws, a);
            lemma_resolve_input_wf(ws, b);
        },
        GateView::RShift(a, _) => {
            lemma_resolve_input_wf(ws, a);
        },
        GateView::LShift(a, _) => {
            lemma_resolve_input_wf(ws, a);
        },
        GateView::Not(a) => {
            lemma_resolve_input_wf(ws, a);
        },
    }
}

/// Binding a name to the wire that carries it does not change what the input
/// abstractly refers to.
proof fn lemma_resolve_input_abs(ws: Seq<WireView>, a: InputView)
    requires
        input_raw(a),
    ensures
        input_abs(ws, resolve_input(names_of(ws), a)) == input_abs(ws, a),
{
    match a {
        InputView::Connection(ConnectionView::Disconnected(n)) => {
            lemma_first_index(names_of(ws), n);
            let fi = first_index(names_of(ws), n);
            if fi >= 0 {
                assert(names_of(ws)[fi] == n);
                assert(ws[fi].name == n);
            }
        },
        _ => {},
    }
}

/// Linking does not change what a raw gate abstractly says: the definition
/// map of an arena is the same before and after resolution.
pub proof fn lemma_resolve_abs(ws: Seq<WireView>, g: GateView)
    requires
        gate_raw(g),
    ensures
        gate_abs(ws, resolve_gate(names_of(ws), g)) == gate_abs(ws, g),
{
    match g {
        GateView::Single(a) => {
            lemma_resolve_input_abs(ws, a);
        },
        GateView::And(a, b) => {
            lemma_resolve_input_abs(ws, a);
            lemma_resolve_input_abs(ws, b);
        },
        GateView::Or(a, b) => {
            lemma_resolve_input_abs(ws, a);
            lemma_resolve_input_abs(ws, b);
        },
        GateView::RShift(a, _) => {
            lemma_resolve_input_abs(ws, a);
        },
        GateView::LShift(a, _) => {
            lemma_resolve_input_abs(ws, a);
        },
        GateView::Not(a) => {
            lemma_resolve_input_abs(ws, a);
        },
    }
}

/// A raw gate reads nothing from an arena: its abstraction is the same over
/// any two arenas.
pub proof fn lemma_raw_abs(a: Seq<WireView>, b: Seq<WireView>, g: GateView)
    requires
        gate_raw(g),
    ensures
        gate_abs(a, g) == gate_abs(b, g),
{
}

impl Gate {
    /// Bind every name-typed reference of this gate against the wire names
    /// of an arena, leaving names that no wire carries dangling.
    pub fn connect(&mut self, names: &Vec<String>)
        ensures
            final(self)@ == resolve_gate(name_views(names@), old(self)@),
    {
        match self {
            Gate::Single(a) => {
                resolve_input_exec(a, names);
            },
            Gate::And(a, b) => {
                resolve_input_exec(a, names);
                resolve_input_exec(b, names);
            },
            Gate::Or(a, b) => {
                resolve_input_exec(a, names);
                resolve_input_exec(b, names);
            },
            Gate::RShift(a, _) => {
                resolve_input_exec(a, names);
            },
            Gate::LShift(a, _) => {
                resolve_input_exec(a, names);
            },
            Gate::Not(a) => {
                resolve_input_exec(a, names);
            },
        }
    }
}

} // verus!
