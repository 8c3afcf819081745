//! The memoized recursive evaluator.
//!
//! `eval_wire` computes a wire's signal on demand: a filled cache slot is
//! returned at once; otherwise the wire's gate is evaluated, recursing along
//! resolved references, and a defined result is stored into the wire's cache
//! slot before it is returned.  "No signal" is never cached, so a later call
//! may succeed once upstream state changes.  Recursion carries fuel (one
//! reference step per unit), which by `theory::lemma_stabilize` loses nothing
//! when it starts at the number of wires; only a truly cyclic reference chain
//! can exhaust it, and such a chain has no signal at any fuel.

use vstd::prelude::*;

use crate::semantics::cache_entry_ok;
use crate::semantics::caches_ok;
use crate::semantics::connection_limit;
use crate::semantics::env_of;
use crate::semantics::evolves;
use crate::semantics::gate_abs;
use crate::semantics::gate_limit;
use crate::semantics::gate_limit_view;
use crate::semantics::gate_signal;
use crate::semantics::input_abs;
use crate::semantics::input_limit;
use crate::semantics::input_limit_view;
use crate::semantics::input_signal;
use crate::semantics::lemma_env_dom;
use crate::semantics::lemma_env_index;
use crate::semantics::lemma_env_same;
use crate::semantics::lemma_evolve_refl;
use crate::semantics::lemma_evolve_trans;
use crate::semantics::lemma_wf_same;
use crate::semantics::map_signal;
use crate::semantics::structure_eq;
use crate::semantics::vw;
use crate::semantics::wire_signal;
use crate::theory::lemma_unfold_limit;
use crate::wires::Connection;
use crate::wires::ConnectionView;
use crate::wires::Gate;
use crate::wires::GateView;
use crate::wires::Input;
use crate::wires::InputView;
use crate::wires::Wire;
use crate::wires::WireView;
use crate::wires::gate_wf;
use crate::wires::has_name;
use crate::wires::input_wf;
use crate::wires::wires_wf;

verus! {

/// One operand, summarized to a copyable value before the evaluator
/// recurses: a literal, the arena index of a resolved reference, or a
/// dangling reference (which never yields a signal).
#[derive(Clone, Copy)]
enum Operand {
    Lit(u16),
    Wired(usize),
    Dangling,
}

/// A gate, summarized operand by operand.
#[derive(Clone, Copy)]
enum GateForm {
    Single(Operand),
    And(Operand, Operand),
    Or(Operand, Operand),
    RShift(Operand, u16),
    LShift(Operand, u16),
    Not(Operand),
}

/// The summary faithfully reflects one concrete operand.
spec fn operand_matches(a: InputView, x: Operand) -> bool {
    match (a, x) {
        (InputView::Signal(v), Operand::Lit(w)) => v == w,
        (InputView::Connection(ConnectionView::Connected(j)), Operand::Wired(u)) => j == u as int,
        (InputView::Connection(ConnectionView::Disconnected(_)), Operand::Dangling) => true,
        _ => false,
    }
}

/// The summary faithfully reflects one concrete gate.
spec fn form_matches(g: GateView, f: GateForm) -> bool {
    match (g, f) {
        (GateView::Single(a), GateForm::Single(x)) => operand_matches(a, x),
        (GateView::And(a, b), GateForm::And(x, y)) => operand_matches(a, x) && operand_matches(
            b,
            y,
        ),
        (GateView::Or(a, b), GateForm::Or(x, y)) => operand_matches(a, x) && operand_matches(b, y),
        (GateView::RShift(a, k), GateForm::RShift(x, l)) => operand_matches(a, x) && k == l,
        (GateView::LShift(a, k), GateForm::LShift(x, l)) => operand_matches(a, x) && k == l,
        (GateView::Not(a), GateForm::Not(x)) => operand_matches(a, x),
        _ => false,
    }
}

/// A summarized operand stays inside the arena.
spec fn operand_wf(ws: Seq<WireView>, x: Operand) -> bool {
    match x {
        Operand::Wired(j) => (j as int) < ws.len(),
        _ => true,
    }
}

/// Every summarized operand of the form stays inside the arena.
spec fn form_wf(ws: Seq<WireView>, f: GateForm) -> bool {
    match f {
        GateForm::Single(x) => operand_wf(ws, x),
        GateForm::And(x, y) => operand_wf(ws, x) && operand_wf(ws, y),
        GateForm::Or(x, y) => operand_wf(ws, x) && operand_wf(ws, y),
        GateForm::RShift(x, _) => operand_wf(ws, x),
        GateForm::LShift(x, _) => operand_wf(ws, x),
        GateForm::Not(x) => operand_wf(ws, x),
    }
}

/// The fuel-indexed value of a summarized operand.
spec fn operand_at(ws: Seq<WireView>, x: Operand, fuel: nat) -> Option<u16> {
    match x {
        Operand::Lit(v) => Some(v),
        Operand::Dangling => None,
        Operand::Wired(j) => if (j as int) < ws.len() && fuel > 0 {
            wire_signal(env_of(ws), ws[j as int].name, (fuel - 1) as nat)
        } else {
            None
        },
    }
}

/// The canonical value of a summarized operand.
spec fn operand_limit(ws: Seq<WireView>, x: Operand) -> Option<u16> {
    match x {
        Operand::Lit(v) => Some(v),
        Operand::Dangling => None,
        Operand::Wired(j) => if (j as int) < ws.len() {
            map_signal(env_of(ws), ws[j as int].name)
        } else {
            None
        },
    }
}

/// The fuel-indexed value of a summarized gate.
spec fn form_at(ws: Seq<WireView>, f: GateForm, fuel: nat) -> Option<u16> {
    match f {
        GateForm::Single(x) => operand_at(ws, x, fuel),
        GateForm::And(x, y) => match (operand_at(ws, x, fuel), operand_at(ws, y, fuel)) {
            (Some(a), Some(b)) => Some(a & b),
            _ => None,
        },
        GateForm::Or(x, y) => match (operand_at(ws, x, fuel), operand_at(ws, y, fuel)) {
            (Some(a), Some(b)) => Some(a | b),
            _ => None,
        },
        GateForm::RShift(x, k) => match operand_at(ws, x, fuel) {
            Some(a) => Some(crate::semantics::shr16(a, k)),
            None => None,
        },
        GateForm::LShift(x, k) => match operand_at(ws, x, fuel) {
            Some(a) => Some(crate::semantics::shl16(a, k)),
            None => None,
        },
        GateForm::Not(x) => match operand_at(ws, x, fuel) {
            Some(a) => Some(!a),
            None => None,
        },
    }
}

/// The canonical value of a summarized gate.
spec fn form_limit(ws: Seq<WireView>, f: GateForm) -> Option<u16> {
    match f {
        GateForm::Single(x) => operand_limit(ws, x),
        GateForm::And(x, y) => match (operand_limit(ws, x), operand_limit(ws, y)) {
            (Some(a), Some(b)) => Some(a & b),
            _ => None,
        },
        GateForm::Or(x, y) => match (operand_limit(ws, x), operand_limit(ws, y)) {
            (Some(a), Some(b)) => Some(a | b),
            _ => None,
        },
        GateForm::RShift(x, k) => match operand_limit(ws, x) {
            Some(a) => Some(crate::semantics::shr16(a, k)),
            None => None,
        },
        GateForm::LShift(x, k) => match operand_limit(ws, x) {
            Some(a) => Some(crate::semantics::shl16(a, k)),
            None => None,
        },
        GateForm::Not(x) => match operand_limit(ws, x) {
            Some(a) => Some(!a),
            None => None,
        },
    }
}

/// A faithful summary of a well-formed operand evaluates exactly as the
/// operand's abstraction does, at every fuel and at the limit.
proof fn lemma_operand_abs(ws: Seq<WireView>, a: InputView, x: Operand, fuel: nat)
    requires
        operand_matches(a, x),
        input_wf(ws, a),
    ensures
        operand_at(ws, x, fuel) == input_signal(env_of(ws), input_abs(ws, a), fuel),
        operand_limit(ws, x) == input_limit(env_of(ws), input_abs(ws, a)),
        operand_wf(ws, x),
    decreases fuel,
{
    match x {
        Operand::Lit(_) => {},
        Operand::Wired(j) => {
            assert(input_abs(ws, a) == crate::semantics::InputAbs::Ref(ws[j as int].name));
        },
        Operand::Dangling => {
            let n = a->Connection_0->Disconnected_0;
            assert(input_abs(ws, a) == crate::semantics::InputAbs::Ref(n));
            assert(!has_name(ws, n));
            assert(!env_of(ws).dom().contains(n));
        },
    }
}

/// A faithful summary of a well-formed gate evaluates exactly as that
/// gate's abstraction does, at every fuel and at the limit.
proof fn lemma_form_abs(ws: Seq<WireView>, g: GateView, f: GateForm, fuel: nat)
    requires
        form_matches(g, f),
        gate_wf(ws, g),
    ensures
        form_at(ws, f, fuel) == gate_signal(env_of(ws), gate_abs(ws, g), fuel),
        form_limit(ws, f) == gate_limit(env_of(ws), gate_abs(ws, g)),
        form_wf(ws, f),
{
    match (g, f) {
        (GateView::Single(a), GateForm::Single(x)) => {
            lemma_operand_abs(ws, a, x, fuel);
        },
        (GateView::And(a, b), GateForm::And(x, y)) => {
            lemma_operand_abs(ws, a, x, fuel);
            lemma_operand_abs(ws, b, y, fuel);
        },
        (GateView::Or(a, b), GateForm::Or(x, y)) => {
            lemma_operand_abs(ws, a, x, fuel);
            lemma_operand_abs(ws, b, y, fuel);
        },
        (GateView::RShift(a, _), GateForm::RShift(x, _)) => {
            lemma_operand_abs(ws, a, x, fuel);
        },
        (GateView::LShift(a, _), GateForm::LShift(x, _)) => {
            lemma_operand_abs(ws, a, x, fuel);
        },
        (GateView::Not(a), GateForm::Not(x)) => {
            lemma_operand_abs(ws, a, x, fuel);
        },
        _ => {},
    }
}

/// A summarized operand's values only read names, gates and the definition
/// map, none of which evaluation changes.
proof fn lemma_operand_stable(a: Seq<WireView>, b: Seq<WireView>, x: Operand, fuel: nat)
    requires
        same_structure_of(a, b),
    ensures
        operand_at(a, x, fuel) == operand_at(b, x, fuel),
        operand_limit(a, x) == operand_limit(b, x),
        operand_wf(a, x) == operand_wf(b, x),
{
    lemma_env_same(a, b);
    match x {
        Operand::Wired(j) => {
            if (j as int) < a.len() {
                assert(structure_eq(a[j as int], b[j as int]));
            }
        },
        _ => {},
    }
}

/// Shorthand for the stability hypothesis of the lemmas above.
spec fn same_structure_of(a: Seq<WireView>, b: Seq<WireView>) -> bool {
    crate::semantics::same_structure(a, b) && crate::wires::distinct_names(a)
}

/// Summarize one operand to a copyable value.
fn operand_of(inp: &Input) -> (r: Operand)
    ensures
        operand_matches(inp@, r),
{
    match inp {
        Input::Signal(v) => Operand::Lit(*v),
        Input::Connection(Connection::Connected(j)) => Operand::Wired(*j),
        Input::Connection(Connection::Disconnected(_)) => Operand::Dangling,
    }
}

/// Summarize a gate to a copyable value.
fn summarize(g: &Gate) -> (r: GateForm)
    ensures
        form_matches(g@, r),
{
    match g {
        Gate::Single(a) => GateForm::Single(operand_of(a)),
        Gate::And(a, b) => GateForm::And(operand_of(a), operand_of(b)),
        Gate::Or(a, b) => GateForm::Or(operand_of(a), operand_of(b)),
        Gate::RShift(a, k) => GateForm::RShift(operand_of(a), *k),
        Gate::LShift(a, k) => GateForm::LShift(operand_of(a), *k),
        Gate::Not(a) => GateForm::Not(operand_of(a)),
    }
}

/// Evaluate one summarized operand, recursing into the arena for a resolved
/// reference while fuel remains.
fn eval_operand(wires: &mut Vec<Wire>, x: Operand, fuel: usize) -> (r: Option<u16>)
    requires
        wires_wf(vw(old(wires))),
        caches_ok(vw(old(wires))),
        operand_wf(vw(old(wires)), x),
    ensures
        evolves(vw(old(wires)), vw(final(wires))),
        wires_wf(vw(final(wires))),
        caches_ok(vw(final(wires))),
        r is Some ==> r == operand_limit(vw(old(wires)), x),
        operand_at(vw(old(wires)), x, fuel as nat) is Some ==> r is Some,
    decreases fuel, 0int,
{
    match x {
        Operand::Lit(v) => {
            proof {
                lemma_evolve_refl(vw(wires));
            }
            Some(v)
        },
        Operand::Dangling => {
            proof {
                lemma_evolve_refl(vw(wires));
            }
            None
        },
        Operand::Wired(j) => {
            if fuel == 0 {
                proof {
                    lemma_evolve_refl(vw(wires));
                }
                None
            } else {
                eval_wire(wires, j, fuel - 1)
            }
        },
    }
}

/// Evaluate one summarized gate: every operand it reads must yield a signal,
/// else the whole gate yields none.
fn eval_form(wires: &mut Vec<Wire>, f: GateForm, fuel: usize) -> (r: Option<u16>)
    requires
        wires_wf(vw(old(wires))),
        caches_ok(vw(old(wires))),
        form_wf(vw(old(wires)), f),
    ensures
        evolves(vw(old(wires)), vw(final(wires))),
        wires_wf(vw(final(wires))),
        caches_ok(vw(final(wires))),
        r is Some ==> r == form_limit(vw(old(wires)), f),
        form_at(vw(old(wires)), f, fuel as nat) is Some ==> r is Some,
    decreases fuel, 1int,
{
    let ghost ws0 = vw(wires);
    match f {
        GateForm::Single(x) => eval_operand(wires, x, fuel),
        GateForm::And(x, y) => {
            let a = eval_operand(wires, x, fuel);
            let ghost ws1 = vw(wires);
            let b = eval_operand(wires, y, fuel);
            proof {
                lemma_operand_stable(ws0, ws1, y, fuel as nat);
                lemma_evolve_trans(ws0, ws1, vw(wires));
            }
            match (a, b) {
                (Some(av), Some(bv)) => Some(av & bv),
                _ => None,
            }
        },
        GateForm::Or(x, y) => {
            let a = eval_operand(wires, x, fuel);
            let ghost ws1 = vw(wires);
            let b = eval_operand(wires, y, fuel);
            proof {
                lemma_operand_stable(ws0, ws1, y, fuel as nat);
                lemma_evolve_trans(ws0, ws1, vw(wires));
            }
            match (a, b) {
                (Some(av), Some(bv)) => Some(av | bv),
                _ => None,
            }
        },
        GateForm::RShift(x, k) => {
            let a = eval_operand(wires, x, fuel);
            match a {
                Some(av) => Some(if k >= 16 { 0 } else { av >> k }),
                None => None,
            }
        },
        GateForm::LShift(x, k) => {
            let a = eval_operand(wires, x, fuel);
            match a {
                Some(av) => Some(if k >= 16 { 0 } else { av << k }),
                None => None,
            }
        },
        GateForm::Not(x) => {
            let a = eval_operand(wires, x, fuel);
            match a {
                Some(av) => Some(!av),
                None => None,
            }
        },
    }
}

/// Evaluate the wire at one arena index, memoizing a defined result.
pub(crate) fn eval_wire(wires: &mut Vec<Wire>, i: usize, fuel: usize) -> (r: Option<u16>)
    requires
        wires_wf(vw(old(wires))),
        caches_ok(vw(old(wires))),
        i < old(wires).len(),
    ensures
        evolves(vw(old(wires)), vw(final(wires))),
        wires_wf(vw(final(wires))),
        caches_ok(vw(final(wires))),
        r is Some ==> r == map_signal(env_of(vw(old(wires))), vw(old(wires))[i as int].name),
        wire_signal(
            env_of(vw(old(wires))),
            vw(old(wires))[i as int].name,
            fuel as nat,
        ) is Some ==> r is Some,
        r is Some ==> vw(final(wires))[i as int].signal == r,
        vw(old(wires))[i as int].signal is Some ==> vw(final(wires)) == vw(old(wires)) && r
            == vw(old(wires))[i as int].signal,
    decreases fuel, 2int,
{
    let ghost ws0 = vw(wires);
    proof {
        assert(ws0[i as int] == wires@[i as int]@);
    }
    let cached = wires[i].signal;
    if let Some(v) = cached {
        proof {
            lemma_evolve_refl(ws0);
            assert(cache_entry_ok(ws0, ws0[i as int]));
        }
        return Some(v);
    }
    let form = summarize(&wires[i].gate);
    proof {
        assert(gate_wf(ws0, ws0[i as int].gate));
        lemma_form_abs(ws0, ws0[i as int].gate, form, fuel as nat);
    }
    let r = eval_form(wires, form, fuel);
    let ghost ws1 = vw(wires);
    proof {
        lemma_env_index(ws0, i as int);
        lemma_env_dom(ws0);
        lemma_unfold_limit(env_of(ws0), ws0[i as int].name);
    }
    if let Some(v) = r {
        proof {
            assert(r == map_signal(env_of(ws0), ws0[i as int].name));
            lemma_env_same(ws0, ws1);
            assert(structure_eq(ws0[i as int], ws1[i as int]));
            assert(map_signal(env_of(ws1), ws1[i as int].name) == Some(v));
        }
        wires[i].signal = Some(v);
        proof {
            let ws2 = vw(wires);
            assert(ws2 =~= ws1.update(
                i as int,
                WireView { signal: Some(v), ..ws1[i as int] },
            )) by {
                assert forall|k: int| 0 <= k < ws2.len() implies ws2[k] == ws1.update(
                    i as int,
                    WireView { signal: Some(v), ..ws1[i as int] },
                )[k] by {
                    assert(ws2[k] == wires@[k]@);
                }
            }
            assert forall|k: int| 0 <= k < ws1.len() implies #[trigger] structure_eq(
                ws1[k],
                ws2[k],
            ) by {}
            assert forall|k: int| 0 <= k < ws1.len() implies #[trigger] crate::semantics::cache_kept(
                ws1[k],
                ws2[k],
            ) by {}
            lemma_env_same(ws1, ws2);
            lemma_wf_same(ws1, ws2);
            assert forall|k: int| 0 <= k < ws2.len() implies cache_entry_ok(
                ws2,
                #[trigger] ws2[k],
            ) by {
                if k == i as int {
                    assert(map_signal(env_of(ws2), ws2[k].name) == Some(v));
                } else {
                    assert(cache_entry_ok(ws1, ws1[k]));
                    assert(ws2[k] == ws1[k]);
                }
            }
            lemma_evolve_trans(ws0, ws1, ws2);
        }
    }
    r
}

impl Connection {
    /// The signal a reference yields: "no signal" while unresolved, else the
    /// referenced wire's signal, computed through the arena's memoized
    /// evaluator.
    pub fn get_signal(&self, wires: &mut Vec<Wire>) -> (r: Option<u16>)
        requires
            wires_wf(vw(old(wires))),
            caches_ok(vw(old(wires))),
        ensures
            evolves(vw(old(wires)), vw(final(wires))),
            wires_wf(vw(final(wires))),
            caches_ok(vw(final(wires))),
            r == connection_limit(vw(old(wires)), self@),
    {
        match self {
            Connection::Disconnected(_) => {
                proof {
                    lemma_evolve_refl(vw(wires));
                }
                None
            },
            Connection::Connected(j) => {
                let j = *j;
                if j < wires.len() {
                    let n = wires.len();
                    let ghost ws0 = vw(wires);
                    let r = eval_wire(wires, j, n);
                    proof {
                        lemma_env_dom(ws0);
                        assert(env_of(ws0).dom().len() == n as nat);
                    }
                    r
                } else {
                    proof {
                        lemma_evolve_refl(vw(wires));
                    }
                    None
                }
            },
        }
    }
}

impl Input {
    /// The signal one gate operand yields: a literal always has its value, a
    /// reference yields what `Connection::get_signal` says.
    pub fn get_signal(&self, wires: &mut Vec<Wire>) -> (r: Option<u16>)
        requires
            wires_wf(vw(old(wires))),
            caches_ok(vw(old(wires))),
        ensures
            evolves(vw(old(wires)), vw(final(wires))),
            wires_wf(vw(final(wires))),
            caches_ok(vw(final(wires))),
            r == input_limit_view(vw(old(wires)), self@),
    {
        match self {
            Input::Signal(v) => {
                proof {
                    lemma_evolve_refl(vw(wires));
                }
                Some(*v)
            },
            Input::Connection(c) => c.get_signal(wires),
        }
    }
}

/// A concrete input's canonical value only reads names, gates and the
/// definition map, none of which evaluation changes.
proof fn lemma_input_view_stable(a: Seq<WireView>, b: Seq<WireView>, iv: InputView)
    requires
        same_structure_of(a, b),
    ensures
        input_limit_view(a, iv) == input_limit_view(b, iv),
{
    lemma_env_same(a, b);
    match iv {
        InputView::Connection(ConnectionView::Connected(j)) => {
            if 0 <= j < a.len() {
                assert(structure_eq(a[j], b[j]));
            }
        },
        _ => {},
    }
}

impl Gate {
    /// The signal this gate yields over the given arena: every operand it
    /// reads must have a signal, else the whole expression has none.
    pub fn get_signal(&self, wires: &mut Vec<Wire>) -> (r: Option<u16>)
        requires
            wires_wf(vw(old(wires))),
            caches_ok(vw(old(wires))),
        ensures
            evolves(vw(old(wires)), vw(final(wires))),
            wires_wf(vw(final(wires))),
            caches_ok(vw(final(wires))),
            r == gate_limit_view(vw(old(wires)), self@),
    {
        let ghost ws0 = vw(wires);
        match self {
            Gate::Single(a) => a.get_signal(wires),
            Gate::And(a, b) => {
                let x = a.get_signal(wires);
                let ghost ws1 = vw(wires);
                let y = b.get_signal(wires);
                proof {
                    lemma_input_view_stable(ws0, ws1, b@);
                    lemma_evolve_trans(ws0, ws1, vw(wires));
                }
                match (x, y) {
                    (Some(xv), Some(yv)) => Some(xv & yv),
                    _ => None,
                }
            },
            Gate::Or(a, b) => {
                let x = a.get_signal(wires);
                let ghost ws1 = vw(wires);
                let y = b.get_signal(wires);
                proof {
                    lemma_input_view_stable(ws0, ws1, b@);
                    lemma_evolve_trans(ws0, ws1, vw(wires));
                }
                match (x, y) {
                    (Some(xv), Some(yv)) => Some(xv | yv),
                    _ => None,
                }
            },
            Gate::RShift(a, k) => {
                let x = a.get_signal(wires);
                match x {
                    Some(xv) => Some(if *k >= 16 { 0 } else { xv >> *k }),
                    None => None,
                }
            },
            Gate::LShift(a, k) => {
                let x = a.get_signal(wires);
                match x {
                    Some(xv) => Some(if *k >= 16 { 0 } else { xv << *k }),
                    None => None,
                }
            },
            Gate::Not(a) => {
                let x = a.get_signal(wires);
                match x {
                    Some(xv) => Some(!xv),
                    None => None,
                }
            },
        }
    }
}

} // verus!
