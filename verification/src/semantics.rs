//! The meaning of a circuit, stated over names alone.
//!
//! A circuit denotes a finite map from wire names to abstract gates whose
//! references are names (`GateAbs`).  A wire's signal is defined by
//! fuel-indexed recursion over that map: following a reference consumes one
//! unit of fuel, and exhausted fuel (which only a cyclic reference chain can
//! bring about) yields "no signal".  `theory` proves that the fuel-indexed
//! values stabilize once the fuel reaches the number of wires, so
//! `map_signal` below is the one canonical signal of a wire.

use vstd::prelude::*;

use crate::wires::ConnectionView;
use crate::wires::GateView;
use crate::wires::InputView;
use crate::wires::WireView;
use crate::wires::distinct_names;
use crate::wires::gate_wf;
use crate::wires::has_name;
use crate::wires::index_of_name;
use crate::wires::Wire;
use crate::wires::input_wf;
use crate::wires::names_of;
use crate::wires::views_of;
use crate::wires::wires_wf;

verus! {

/// The views of the wire nodes a circuit's vector holds, in arena order.
pub open spec fn vw(wires: &Vec<Wire>) -> Seq<WireView> {
    views_of(wires@)
}

/// An abstract gate operand: a literal signal or a wire name.
pub enum InputAbs {
    Literal(u16),
    Ref(Seq<char>),
}

/// An abstract gate: the combinational rule with operands by name.
pub enum GateAbs {
    Single(InputAbs),
    And(InputAbs, InputAbs),
    Or(InputAbs, InputAbs),
    RShift(InputAbs, u16),
    LShift(InputAbs, u16),
    Not(InputAbs),
}

/// The abstraction of one concrete input: a resolved reference stands for the
/// name of the wire it points at, an unresolved one for the name it holds.
pub open spec fn input_abs(ws: Seq<WireView>, inp: InputView) -> InputAbs {
    match inp {
        InputView::Signal(v) => InputAbs::Literal(v),
        InputView::Connection(ConnectionView::Disconnected(n)) => InputAbs::Ref(n),
        InputView::Connection(ConnectionView::Connected(j)) => if 0 <= j < ws.len() {
            InputAbs::Ref(ws[j].name)
        } else {
            InputAbs::Ref(Seq::empty())
        },
    }
}

/// The abstraction of one concrete gate.
pub open spec fn gate_abs(ws: Seq<WireView>, g: GateView) -> GateAbs {
    match g {
        GateView::Single(a) => GateAbs::Single(input_abs(ws, a)),
        GateView::And(a, b) => GateAbs::And(input_abs(ws, a), input_abs(ws, b)),
        GateView::Or(a, b) => GateAbs::Or(input_abs(ws, a), input_abs(ws, b)),
        GateView::RShift(a, k) => GateAbs::RShift(input_abs(ws, a), k),
        GateView::LShift(a, k) => GateAbs::LShift(input_abs(ws, a), k),
        GateView::Not(a) => GateAbs::Not(input_abs(ws, a)),
    }
}

/// The definition map of an arena of wires: each name to its abstract gate.
pub open spec fn env_of(ws: Seq<WireView>) -> Map<Seq<char>, GateAbs> {
    Map::new(
        |n: Seq<char>| has_name(ws, n),
        |n: Seq<char>| gate_abs(ws, ws[index_of_name(ws, n)].gate),
    )
}

/// Right shift of a 16-bit signal; shifting by 16 or more clears every bit.
pub open spec fn shr16(x: u16, k: u16) -> u16 {
    if k >= 16 {
        0u16
    } else {
        x >> k
    }
}

/// Left shift of a 16-bit signal, truncated to 16 bits.
pub open spec fn shl16(x: u16, k: u16) -> u16 {
    if k >= 16 {
        0u16
    } else {
        x << k
    }
}

/// The value of one operand, with `fuel` remaining reference steps.
pub open spec fn input_signal(
    e: Map<Seq<char>, GateAbs>,
    inp: InputAbs,
    fuel: nat,
) -> Option<u16>
    decreases fuel, 0int,
{
    match inp {
        InputAbs::Literal(v) => Some(v),
        InputAbs::Ref(n) => if fuel > 0 {
            wire_signal(e, n, (fuel - 1) as nat)
        } else {
            None
        },
    }
}

/// The value of a gate: every operand it reads must have a signal, else the
/// whole expression has none.
pub open spec fn gate_signal(e: Map<Seq<char>, GateAbs>, g: GateAbs, fuel: nat) -> Option<u16>
    decreases fuel, 1int,
{
    match g {
        GateAbs::Single(a) => input_signal(e, a, fuel),
        GateAbs::And(a, b) => match (input_signal(e, a, fuel), input_signal(e, b, fuel)) {
            (Some(x), Some(y)) => Some(x & y),
            _ => None,
        },
        GateAbs::Or(a, b) => match (input_signal(e, a, fuel), input_signal(e, b, fuel)) {
            (Some(x), Some(y)) => Some(x | y),
            _ => None,
        },
        GateAbs::RShift(a, k) => match input_signal(e, a, fuel) {
            Some(x) => Some(shr16(x, k)),
            None => None,
        },
        GateAbs::LShift(a, k) => match input_signal(e, a, fuel) {
            Some(x) => Some(shl16(x, k)),
            None => None,
        },
        GateAbs::Not(a) => match input_signal(e, a, fuel) {
            Some(x) => Some(!x),
            None => None,
        },
    }
}

/// The fuel-indexed signal of a named wire: the value of its gate, or "no
/// signal" for a name that no wire carries.
pub open spec fn wire_signal(e: Map<Seq<char>, GateAbs>, n: Seq<char>, fuel: nat) -> Option<u16>
    decreases fuel, 2int,
{
    if e.dom().contains(n) {
        gate_signal(e, e[n], fuel)
    } else {
        None
    }
}

/// The canonical signal of a wire: the fuel-indexed signal at the point where
/// the values have stabilized (one reference step per wire suffices).
pub open spec fn map_signal(e: Map<Seq<char>, GateAbs>, n: Seq<char>) -> Option<u16> {
    wire_signal(e, n, e.dom().len())
}

/// The canonical value of one operand.
pub open spec fn input_limit(e: Map<Seq<char>, GateAbs>, inp: InputAbs) -> Option<u16> {
    match inp {
        InputAbs::Literal(v) => Some(v),
        InputAbs::Ref(n) => map_signal(e, n),
    }
}

/// The canonical value of a gate, each operand taken at its canonical value.
pub open spec fn gate_limit(e: Map<Seq<char>, GateAbs>, g: GateAbs) -> Option<u16> {
    match g {
        GateAbs::Single(a) => input_limit(e, a),
        GateAbs::And(a, b) => match (input_limit(e, a), input_limit(e, b)) {
            (Some(x), Some(y)) => Some(x & y),
            _ => None,
        },
        GateAbs::Or(a, b) => match (input_limit(e, a), input_limit(e, b)) {
            (Some(x), Some(y)) => Some(x | y),
            _ => None,
        },
        GateAbs::RShift(a, k) => match input_limit(e, a) {
            Some(x) => Some(shr16(x, k)),
            None => None,
        },
        GateAbs::LShift(a, k) => match input_limit(e, a) {
            Some(x) => Some(shl16(x, k)),
            None => None,
        },
        GateAbs::Not(a) => match input_limit(e, a) {
            Some(x) => Some(!x),
            None => None,
        },
    }
}

/// The canonical signal a reference yields: "no signal" while unresolved or
/// aimed outside the arena, else the canonical signal of the referenced wire.
pub open spec fn connection_limit(ws: Seq<WireView>, c: ConnectionView) -> Option<u16> {
    match c {
        ConnectionView::Disconnected(_) => None,
        ConnectionView::Connected(j) => if 0 <= j < ws.len() {
            map_signal(env_of(ws), ws[j].name)
        } else {
            None
        },
    }
}

/// The canonical signal one concrete operand yields.
pub open spec fn input_limit_view(ws: Seq<WireView>, a: InputView) -> Option<u16> {
    match a {
        InputView::Signal(v) => Some(v),
        InputView::Connection(c) => connection_limit(ws, c),
    }
}

/// The canonical value of a concrete gate over an arena of wires.
pub open spec fn gate_limit_view(ws: Seq<WireView>, g: GateView) -> Option<u16> {
    match g {
        GateView::Single(a) => input_limit_view(ws, a),
        GateView::And(a, b) => match (input_limit_view(ws, a), input_limit_view(ws, b)) {
            (Some(x), Some(y)) => Some(x & y),
            _ => None,
        },
        GateView::Or(a, b) => match (input_limit_view(ws, a), input_limit_view(ws, b)) {
            (Some(x), Some(y)) => Some(x | y),
            _ => None,
        },
        GateView::RShift(a, k) => match input_limit_view(ws, a) {
            Some(x) => Some(shr16(x, k)),
            None => None,
        },
        GateView::LShift(a, k) => match input_limit_view(ws, a) {
            Some(x) => Some(shl16(x, k)),
            None => None,
        },
        GateView::Not(a) => match input_limit_view(ws, a) {
            Some(x) => Some(!x),
            None => None,
        },
    }
}

/// Every memoized signal agrees with the canonical signal of its wire.
pub open spec fn caches_ok(ws: Seq<WireView>) -> bool {
    forall|i: int| 0 <= i < ws.len() ==> cache_entry_ok(ws, #[trigger] ws[i])
}

/// One cache slot: empty, or holding the wire's canonical signal.
pub open spec fn cache_entry_ok(ws: Seq<WireView>, w: WireView) -> bool {
    match w.signal {
        None => true,
        Some(v) => map_signal(env_of(ws), w.name) == Some(v),
    }
}

/// One wire keeps its name and gate.
pub open spec fn structure_eq(x: WireView, y: WireView) -> bool {
    x.name == y.name && x.gate == y.gate
}

/// Names and gates agree position by position; only caches may differ.
pub open spec fn same_structure(a: Seq<WireView>, b: Seq<WireView>) -> bool {
    &&& a.len() == b.len()
    &&& forall|k: int| 0 <= k < a.len() ==> #[trigger] structure_eq(a[k], b[k])
}

/// One wire's filled cache slot keeps its value.
pub open spec fn cache_kept(x: WireView, y: WireView) -> bool {
    x.signal is Some ==> y.signal == x.signal
}

/// Cache slots only gain values: a filled slot keeps its value.
pub open spec fn caches_grow(a: Seq<WireView>, b: Seq<WireView>) -> bool {
    &&& a.len() == b.len()
    &&& forall|k: int| 0 <= k < a.len() ==> #[trigger] cache_kept(a[k], b[k])
}

/// Evaluation leaves names and gates alone and only fills cache slots.
pub open spec fn evolves(a: Seq<WireView>, b: Seq<WireView>) -> bool {
    same_structure(a, b) && caches_grow(a, b)
}

/// Nothing changed: the trivial evolution.
pub proof fn lemma_evolve_refl(a: Seq<WireView>)
    ensures
        evolves(a, a),
{
    assert forall|k: int| 0 <= k < a.len() implies #[trigger] structure_eq(a[k], a[k]) by {}
    assert forall|k: int| 0 <= k < a.len() implies #[trigger] cache_kept(a[k], a[k]) by {}
}

/// Two evolutions in a row are one evolution.
pub proof fn lemma_evolve_trans(a: Seq<WireView>, b: Seq<WireView>, c: Seq<WireView>)
    requires
        evolves(a, b),
        evolves(b, c),
    ensures
        evolves(a, c),
{
    assert forall|k: int| 0 <= k < a.len() implies #[trigger] structure_eq(a[k], c[k]) by {
        assert(structure_eq(a[k], b[k]));
        assert(structure_eq(b[k], c[k]));
    }
    assert forall|k: int| 0 <= k < a.len() implies #[trigger] cache_kept(a[k], c[k]) by {
        assert(cache_kept(a[k], b[k]));
        assert(cache_kept(b[k], c[k]));
    }
}

/// The definition map has one entry per wire when names are distinct.
pub proof fn lemma_env_dom(ws: Seq<WireView>)
    requires
        distinct_names(ws),
    ensures
        env_of(ws).dom().finite(),
        env_of(ws).dom().len() == ws.len(),
{
    broadcast use vstd::seq_lib::seq_to_set_is_finite;

    let names = ws.map_values(|w: WireView| w.name);
    assert(env_of(ws).dom() =~= names.to_set()) by {
        assert(forall|n: Seq<char>| has_name(ws, n) ==> #[trigger] names.contains(n)) by {
            assert forall|n: Seq<char>| has_name(ws, n) implies #[trigger] names.contains(n) by {
                let i = choose|i: int| 0 <= i < ws.len() && ws[i].name == n;
                assert(names[i] == n);
            }
        }
    }
    assert(names.no_duplicates());
    names.unique_seq_to_set();
}

/// The definition map reads each wire's own gate: at a wire's name it holds
/// the abstraction of that wire's gate.
pub proof fn lemma_env_index(ws: Seq<WireView>, i: int)
    requires
        distinct_names(ws),
        0 <= i < ws.len(),
    ensures
        env_of(ws).dom().contains(ws[i].name),
        env_of(ws)[ws[i].name] == gate_abs(ws, ws[i].gate),
{
    assert(has_name(ws, ws[i].name));
    let k = index_of_name(ws, ws[i].name);
    assert(0 <= k < ws.len() && ws[k].name == ws[i].name);
    assert(k == i);
}

/// Two arenas with the same names agree position by position on names.
pub proof fn lemma_same_structure_names(a: Seq<WireView>, b: Seq<WireView>)
    requires
        same_structure(a, b),
    ensures
        names_of(a) == names_of(b),
{
    assert(names_of(a) =~= names_of(b)) by {
        assert forall|k: int| 0 <= k < a.len() implies names_of(a)[k] == names_of(b)[k] by {
            assert(structure_eq(a[k], b[k]));
        }
    }
}

/// Abstraction of an input reads only names.
proof fn lemma_input_abs_same(a: Seq<WireView>, b: Seq<WireView>, inp: InputView)
    requires
        names_of(a) == names_of(b),
    ensures
        input_abs(a, inp) == input_abs(b, inp),
{
    assert(a.len() == names_of(a).len() && b.len() == names_of(b).len());
    match inp {
        InputView::Connection(ConnectionView::Connected(j)) => {
            if 0 <= j < a.len() {
                assert(a[j].name == names_of(a)[j] && b[j].name == names_of(b)[j]);
            }
        },
        _ => {},
    }
}

/// Abstraction of a gate reads only names.
pub proof fn lemma_gate_abs_same(a: Seq<WireView>, b: Seq<WireView>, g: GateView)
    requires
        names_of(a) == names_of(b),
    ensures
        gate_abs(a, g) == gate_abs(b, g),
{
    match g {
        GateView::Single(x) => {
            lemma_input_abs_same(a, b, x);
        },
        GateView::And(x, y) => {
            lemma_input_abs_same(a, b, x);
            lemma_input_abs_same(a, b, y);
        },
        GateView::Or(x, y) => {
            lemma_input_abs_same(a, b, x);
            lemma_input_abs_same(a, b, y);
        },
        GateView::RShift(x, _) => {
            lemma_input_abs_same(a, b, x);
        },
        GateView::LShift(x, _) => {
            lemma_input_abs_same(a, b, x);
        },
        GateView::Not(x) => {
            lemma_input_abs_same(a, b, x);
        },
    }
}

/// Evaluation only fills caches, and the definition map ignores caches: two
/// arenas with the same names and gates denote the same definition map.
pub proof fn lemma_env_same(a: Seq<WireView>, b: Seq<WireView>)
    requires
        same_structure(a, b),
        distinct_names(a),
    ensures
        env_of(a) == env_of(b),
        distinct_names(b),
{
    assert forall|n: Seq<char>| has_name(a, n) implies has_name(b, n) by {
        let i = choose|i: int| 0 <= i < a.len() && a[i].name == n;
        assert(structure_eq(a[i], b[i]));
        assert(b[i].name == n);
    }
    assert forall|n: Seq<char>| has_name(b, n) implies has_name(a, n) by {
        let i = choose|i: int| 0 <= i < b.len() && b[i].name == n;
        assert(structure_eq(a[i], b[i]));
        assert(a[i].name == n);
    }
    assert forall|i: int, j: int| 0 <= i < j < b.len() implies b[i].name != b[j].name by {
        assert(structure_eq(a[i], b[i]));
        assert(structure_eq(a[j], b[j]));
        assert(a[i].name != a[j].name);
    }
    assert(env_of(a) =~= env_of(b)) by {
        assert forall|n: Seq<char>| has_name(a, n) implies env_of(a)[n] == env_of(b)[n] by {
            let ia = index_of_name(a, n);
            let ib = index_of_name(b, n);
            assert(0 <= ia < a.len() && a[ia].name == n);
            assert(0 <= ib < b.len() && b[ib].name == n);
            assert(structure_eq(a[ia], b[ia]));
            assert(structure_eq(a[ib], b[ib]));
            assert(a[ib].name == n);
            assert(ib == ia);
            lemma_same_structure_names(a, b);
            lemma_gate_abs_same(a, b, a[ia].gate);
        }
    }
}

/// Well-formedness reads only names and gates, which `same_structure` keeps.
pub proof fn lemma_wf_same(a: Seq<WireView>, b: Seq<WireView>)
    requires
        wires_wf(a),
        same_structure(a, b),
    ensures
        wires_wf(b),
{
    assert forall|n: Seq<char>| has_name(b, n) implies has_name(a, n) by {
        let i = choose|i: int| 0 <= i < b.len() && b[i].name == n;
        assert(structure_eq(a[i], b[i]));
        assert(a[i].name == n);
    }
    assert forall|i: int, j: int| 0 <= i < j < b.len() implies b[i].name != b[j].name by {
        assert(structure_eq(a[i], b[i]));
        assert(structure_eq(a[j], b[j]));
        assert(a[i].name != a[j].name);
    }
    assert forall|i: int| 0 <= i < b.len() implies gate_wf(b, #[trigger] b[i].gate) by {
        assert(gate_wf(a, a[i].gate));
        assert(structure_eq(a[i], b[i]));
        lemma_gate_wf_names(a, b, a[i].gate);
    }
}

/// One gate's well-formedness carries over to an arena of the same size
/// carrying no new name.
pub proof fn lemma_gate_wf_names(a: Seq<WireView>, b: Seq<WireView>, g: GateView)
    requires
        gate_wf(a, g),
        a.len() == b.len(),
        forall|n: Seq<char>| has_name(b, n) ==> has_name(a, n),
    ensures
        gate_wf(b, g),
{
}

} // verus!
