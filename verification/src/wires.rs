//! The value model of a circuit: wires, gates, and the inputs a gate reads.
//!
//! A wire owns a gate expression and a cache slot for its last computed
//! signal.  A gate input is either a literal 16-bit signal or a reference to
//! another wire: unresolved (a textual name) or resolved (the index of the
//! referenced wire in the circuit's arena of wire nodes).

use vstd::prelude::*;

verus! {

/// A reference to another wire: still a textual name, or already bound to the
/// index of a wire node in the owning circuit.
pub enum Connection {
    Disconnected(String),
    Connected(usize),
}

/// One operand of a gate: a literal signal or a reference to a wire.
pub enum Input {
    Signal(u16),
    Connection(Connection),
}

/// The combinational rule defining a wire's signal from its operand(s).
pub enum Gate {
    Single(Input),
    And(Input, Input),
    Or(Input, Input),
    RShift(Input, u16),
    LShift(Input, u16),
    Not(Input),
}

/// A named wire node: its gate and its memoization cache slot.
pub struct Wire {
    pub name: String,
    pub gate: Gate,
    pub signal: Option<u16>,
}

/// Mathematical image of a `Connection`.
pub enum ConnectionView {
    Disconnected(Seq<char>),
    Connected(int),
}

/// Mathematical image of an `Input`.
pub enum InputView {
    Signal(u16),
    Connection(ConnectionView),
}

/// Mathematical image of a `Gate`.
pub enum GateView {
    Single(InputView),
    And(InputView, InputView),
    Or(InputView, InputView),
    RShift(InputView, u16),
    LShift(InputView, u16),
    Not(InputView),
}

/// Mathematical image of a `Wire`.
pub struct WireView {
    pub name: Seq<char>,
    pub gate: GateView,
    pub signal: Option<u16>,
}

impl View for Connection {
    type V = ConnectionView;

    open spec fn view(&self) -> ConnectionView {
        match self {
            Connection::Disconnected(n) => ConnectionView::Disconnected(n@),
            Connection::Connected(j) => ConnectionView::Connected(*j as int),
        }
    }
}

impl View for Input {
    type V = InputView;

    open spec fn view(&self) -> InputView {
        match self {
            Input::Signal(v) => InputView::Signal(*v),
            Input::Connection(c) => InputView::Connection(c@),
        }
    }
}

impl View for Gate {
    type V = GateView;

    open spec fn view(&self) -> GateView {
        match self {
            Gate::Single(a) => GateView::Single(a@),
            Gate::And(a, b) => GateView::And(a@, b@),
            Gate::Or(a, b) => GateView::Or(a@, b@),
            Gate::RShift(a, k) => GateView::RShift(a@, *k),
            Gate::LShift(a, k) => GateView::LShift(a@, *k),
            Gate::Not(a) => GateView::Not(a@),
        }
    }
}

impl View for Wire {
    type V = WireView;

    open spec fn view(&self) -> WireView {
        WireView { name: self.name@, gate: self.gate@, signal: self.signal }
    }
}

/// The views of a circuit's wire nodes, in arena order.
pub open spec fn views_of(ws: Seq<Wire>) -> Seq<WireView> {
    ws.map_values(|w: Wire| w@)
}

/// The names of an arena's wires, in arena order.
pub open spec fn names_of(ws: Seq<WireView>) -> Seq<Seq<char>> {
    ws.map_values(|w: WireView| w.name)
}

/// Character-by-character string comparison; equal exactly when the views
/// are equal.
pub fn str_eq(a: &str, b: &str) -> (r: bool)
    ensures
        r == (a@ == b@),
{
    let la = a.unicode_len();
    let lb = b.unicode_len();
    if la != lb {
        return false;
    }
    let mut i: usize = 0;
    while i < la
        invariant
            la == a@.len(),
            lb == b@.len(),
            la == lb,
            i <= la,
            forall|k: int| 0 <= k < i ==> a@[k] == b@[k],
        decreases la - i,
    {
        let ca = a.get_char(i);
        let cb = b.get_char(i);
        if ca != cb {
            proof {
                assert(a@[i as int] != b@[i as int]);
            }
            return false;
        }
        i += 1;
    }
    proof {
        assert(a@ =~= b@);
    }
    true
}

/// Some wire of the arena carries this name.
pub open spec fn has_name(ws: Seq<WireView>, n: Seq<char>) -> bool {
    exists|i: int| 0 <= i < ws.len() && ws[i].name == n
}

/// The index of the wire carrying a name (unique when names are distinct).
pub open spec fn index_of_name(ws: Seq<WireView>, n: Seq<char>) -> int {
    choose|i: int| 0 <= i < ws.len() && ws[i].name == n
}

/// No two wires of the arena share a name.
pub open spec fn distinct_names(ws: Seq<WireView>) -> bool {
    forall|i: int, j: int| 0 <= i < j < ws.len() ==> ws[i].name != ws[j].name
}

/// A single input is well formed with respect to an arena: a resolved
/// reference stays inside the arena, and an unresolved name really dangles
/// (no wire of the arena carries it).
pub open spec fn input_wf(ws: Seq<WireView>, inp: InputView) -> bool {
    match inp {
        InputView::Signal(_) => true,
        InputView::Connection(ConnectionView::Connected(j)) => 0 <= j < ws.len(),
        InputView::Connection(ConnectionView::Disconnected(n)) => !has_name(ws, n),
    }
}

/// Every input of a gate is well formed with respect to the arena.
pub open spec fn gate_wf(ws: Seq<WireView>, g: GateView) -> bool {
    match g {
        GateView::Single(a) => input_wf(ws, a),
        GateView::And(a, b) => input_wf(ws, a) && input_wf(ws, b),
        GateView::Or(a, b) => input_wf(ws, a) && input_wf(ws, b),
        GateView::RShift(a, _) => input_wf(ws, a),
        GateView::LShift(a, _) => input_wf(ws, a),
        GateView::Not(a) => input_wf(ws, a),
    }
}

/// The linking invariant of an assembled circuit: names are unique and every
/// gate is fully resolved against the arena.
pub open spec fn wires_wf(ws: Seq<WireView>) -> bool {
    &&& distinct_names(ws)
    &&& forall|i: int| 0 <= i < ws.len() ==> gate_wf(ws, #[trigger] ws[i].gate)
}

/// An input that is still unresolved: no direct handle bound yet.
pub open spec fn input_raw(inp: InputView) -> bool {
    !(inp is Connection && inp->Connection_0 is Connected)
}

/// A gate fresh from parsing: every reference is still a textual name.
pub open spec fn gate_raw(g: GateView) -> bool {
    match g {
        GateView::Single(a) => input_raw(a),
        GateView::And(a, b) => input_raw(a) && input_raw(b),
        GateView::Or(a, b) => input_raw(a) && input_raw(b),
        GateView::RShift(a, _) => input_raw(a),
        GateView::LShift(a, _) => input_raw(a),
        GateView::Not(a) => input_raw(a),
    }
}

/// Every gate of the arena is still unresolved.
pub open spec fn all_raw(ws: Seq<WireView>) -> bool {
    forall|i: int| 0 <= i < ws.len() ==> gate_raw(#[trigger] ws[i].gate)
}

/// An input holds no unresolved name.
pub open spec fn input_resolved(inp: InputView) -> bool {
    !(inp is Connection && inp->Connection_0 is Disconnected)
}

/// A gate holding no unresolved name (the sense of `Gate::is_connected`).
pub open spec fn gate_resolved(g: GateView) -> bool {
    match g {
        GateView::Single(a) => input_resolved(a),
        GateView::And(a, b) => input_resolved(a) && input_resolved(b),
        GateView::Or(a, b) => input_resolved(a) && input_resolved(b),
        GateView::RShift(a, _) => input_resolved(a),
        GateView::LShift(a, _) => input_resolved(a),
        GateView::Not(a) => input_resolved(a),
    }
}

impl Gate {
    /// True exactly when no input of this gate still holds a textual name.
    pub fn is_connected(&self) -> (r: bool)
        ensures
            r == gate_resolved(self@),
    {
        match self {
            Gate::Single(a) => input_is_resolved(a),
            Gate::And(a, b) => input_is_resolved(a) && input_is_resolved(b),
            Gate::Or(a, b) => input_is_resolved(a) && input_is_resolved(b),
            Gate::RShift(a, _) => input_is_resolved(a),
            Gate::LShift(a, _) => input_is_resolved(a),
            Gate::Not(a) => input_is_resolved(a),
        }
    }
}

fn input_is_resolved(inp: &Input) -> (r: bool)
    ensures
        r == input_resolved(inp@),
{
    match inp {
        Input::Signal(_) => true,
        Input::Connection(Connection::Connected(_)) => true,
        Input::Connection(Connection::Disconnected(_)) => false,
    }
}

impl Wire {
    /// Clear this wire's memoization cache; its gate and name are untouched.
    pub fn reset(&mut self)
        ensures
            final(self)@ == (WireView { signal: None, ..old(self)@ }),
    {
        self.signal = None;
    }
}

} // verus!
