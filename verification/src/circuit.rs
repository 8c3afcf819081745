//! The circuit: owner of the full arena of wire nodes.
//!
//! `assemble` builds the arena from raw definitions and runs the linking
//! pass over every node, rejecting duplicate wire names (a configuration
//! error).  `get` computes a wire's signal on demand through the memoized
//! evaluator; `set` rewrites one wire's gate to a constant and clears every
//! cache slot, so the next `get` recomputes from the new source; `reset`
//! clears every cache slot without changing any gate.

use vstd::prelude::*;

use crate::eval::eval_wire;
use crate::resolve::lemma_resolve_abs;
use crate::resolve::lemma_resolve_wf;
use crate::resolve::name_views;
use crate::resolve::resolve_gate;
use crate::semantics::GateAbs;
use crate::semantics::InputAbs;
use crate::semantics::cache_entry_ok;
use crate::semantics::caches_ok;
use crate::semantics::env_of;
use crate::semantics::evolves;
use crate::semantics::gate_abs;
use crate::semantics::lemma_env_dom;
use crate::semantics::lemma_env_same;
use crate::semantics::lemma_evolve_refl;
use crate::semantics::lemma_gate_abs_same;
use crate::semantics::map_signal;
use crate::semantics::same_structure;
use crate::semantics::structure_eq;
use crate::semantics::vw;
use crate::wires::Gate;
use crate::wires::GateView;
use crate::wires::Input;
use crate::wires::Wire;
use crate::wires::WireView;
use crate::wires::all_raw;
use crate::wires::distinct_names;
use crate::wires::gate_raw;
use crate::wires::gate_wf;
use crate::wires::has_name;
use crate::wires::index_of_name;
use crate::wires::input_raw;
use crate::wires::names_of;
use crate::wires::str_eq;
use crate::wires::views_of;
use crate::wires::wires_wf;

verus! {

/// The sole owner of the full collection of wire nodes.
pub struct Circuit {
    wires: Vec<Wire>,
}

impl View for Circuit {
    type V = Seq<WireView>;

    closed spec fn view(&self) -> Seq<WireView> {
        views_of(self.wires@)
    }
}

/// Linear search by name over the arena: the first matching index, if any.
fn find_wire(wires: &Vec<Wire>, name: &str) -> (r: Option<usize>)
    ensures
        r is Some ==> (r->Some_0 as int) < vw(wires).len() && vw(wires)[r->Some_0 as int].name
            == name@,
        r is None ==> !has_name(vw(wires), name@),
{
    let mut i: usize = 0;
    while i < wires.len()
        invariant
            i <= wires@.len(),
            vw(wires).len() == wires@.len(),
            forall|k: int| 0 <= k < i ==> vw(wires)[k].name != name@,
        decreases wires.len() - i,
    {
        proof {
            assert(vw(wires)[i as int] == wires@[i as int]@);
        }
        if str_eq(wires[i].name.as_str(), name) {
            return Some(i);
        }
        i += 1;
    }
    proof {
        if has_name(vw(wires), name@) {
            let k = choose|k: int| 0 <= k < vw(wires).len() && vw(wires)[k].name == name@;
            assert(vw(wires)[k].name != name@);
        }
    }
    None
}

/// Check that a gate is still raw: no reference bound to an index yet.
fn gate_is_raw(g: &Gate) -> (r: bool)
    ensures
        r == gate_raw(g@),
{
    match g {
        Gate::Single(a) => input_is_raw(a),
        Gate::And(a, b) => input_is_raw(a) && input_is_raw(b),
        Gate::Or(a, b) => input_is_raw(a) && input_is_raw(b),
        Gate::RShift(a, _) => input_is_raw(a),
        Gate::LShift(a, _) => input_is_raw(a),
        Gate::Not(a) => input_is_raw(a),
    }
}

/// Check that one input is still raw.
fn input_is_raw(inp: &Input) -> (r: bool)
    ensures
        r == input_raw(inp@),
{
    match inp {
        Input::Signal(_) => true,
        Input::Connection(crate::wires::Connection::Disconnected(_)) => true,
        Input::Connection(crate::wires::Connection::Connected(_)) => false,
    }
}

impl Circuit {
    /// Names are unique, every resolved reference lands inside the arena,
    /// every unresolved name truly dangles, and every cache slot holds its
    /// wire's canonical signal.
    pub open spec fn wf(&self) -> bool {
        wires_wf(self@) && caches_ok(self@)
    }

    /// The circuit's meaning: its definition map, from each wire name to the
    /// abstract gate defining that wire.
    pub open spec fn defs(&self) -> Map<Seq<char>, GateAbs> {
        env_of(self@)
    }

    /// Build one wire node per raw definition, then link every node.
    /// Duplicate wire names are a configuration error, as is a definition
    /// whose references arrive already bound: both yield `None`.
    pub fn assemble(defs: Vec<Wire>) -> (r: Option<Circuit>)
        ensures
            r is Some <==> distinct_names(views_of(defs@)) && all_raw(views_of(defs@)),
            r is Some ==> (r->Some_0).wf(),
            r is Some ==> (r->Some_0)@.len() == defs@.len(),
            r is Some ==> names_of((r->Some_0)@) == names_of(views_of(defs@)),
            r is Some ==> forall|k: int|
                0 <= k < defs@.len() ==> (#[trigger] (r->Some_0)@[k].signal) is None,
            r is Some ==> (r->Some_0).defs() == env_of(views_of(defs@)),
    {
        let ghost raw = views_of(defs@);
        let mut i: usize = 0;
        while i < defs.len()
            invariant
                i <= defs@.len(),
                raw == views_of(defs@),
                raw.len() == defs@.len(),
                forall|k: int| 0 <= k < i ==> gate_raw(#[trigger] raw[k].gate),
            decreases defs.len() - i,
        {
            proof {
                assert(raw[i as int] == defs@[i as int]@);
            }
            if !gate_is_raw(&defs[i].gate) {
                proof {
                    assert(!gate_raw(raw[i as int].gate));
                    assert(!all_raw(raw));
                }
                return None;
            }
            i += 1;
        }
        assert(all_raw(raw));
        let mut i: usize = 0;
        while i < defs.len()
            invariant
                i <= defs@.len(),
                raw == views_of(defs@),
                raw.len() == defs@.len(),
                forall|a: int, b: int| 0 <= a < b < i ==> raw[a].name != raw[b].name,
            decreases defs.len() - i,
        {
            let mut j: usize = 0;
            while j < i
                invariant
                    j <= i < defs@.len(),
                    raw == views_of(defs@),
                    raw.len() == defs@.len(),
                    forall|a: int, b: int| 0 <= a < b < i ==> raw[a].name != raw[b].name,
                    forall|a: int| 0 <= a < j ==> raw[a].name != raw[i as int].name,
                decreases i - j,
            {
                proof {
                    assert(raw[i as int] == defs@[i as int]@);
                    assert(raw[j as int] == defs@[j as int]@);
                }
                if str_eq(defs[j].name.as_str(), defs[i].name.as_str()) {
                    return None;
                }
                j += 1;
            }
            i += 1;
        }
        assert(distinct_names(raw));
        let mut names: Vec<String> = Vec::new();
        let mut i: usize = 0;
        while i < defs.len()
            invariant
                i <= defs@.len(),
                raw == views_of(defs@),
                raw.len() == defs@.len(),
                names@.len() == i,
                forall|k: int| 0 <= k < i ==> (#[trigger] names@[k])@ == raw[k].name,
            decreases defs.len() - i,
        {
            proof {
                assert(raw[i as int] == defs@[i as int]@);
            }
            names.push(defs[i].name.clone());
            i += 1;
        }
        proof {
            assert(name_views(names@) =~= names_of(raw));
        }
        let mut wires = defs;
        let mut i: usize = 0;
        while i < wires.len()
            invariant
                vw(&wires).len() == raw.len(),
                i <= raw.len(),
                name_views(names@) == names_of(raw),
                forall|k: int| 0 <= k < raw.len() ==> (#[trigger] vw(&wires)[k]).name
                    == raw[k].name,
                forall|k: int| 0 <= k < i ==> (#[trigger] vw(&wires)[k]).gate == resolve_gate(
                    names_of(raw),
                    raw[k].gate,
                ) && vw(&wires)[k].signal is None,
                forall|k: int| i <= k < raw.len() ==> (#[trigger] vw(&wires)[k]) == raw[k],
            decreases wires.len() - i,
        {
            let ghost prev = wires@;
            wires[i].gate.connect(&names);
            wires[i].signal = None;
            proof {
                assert(wires@[i as int].name == prev[i as int].name);
                assert(wires@[i as int].gate@ == resolve_gate(
                    name_views(names@),
                    prev[i as int].gate@,
                ));
                assert(views_of(prev)[i as int] == prev[i as int]@);
                assert(views_of(prev)[i as int] == raw[i as int]);
                assert forall|k: int| 0 <= k < raw.len() implies (#[trigger] vw(&wires)[k])
                    == (if k == i as int {
                    WireView {
                        name: raw[k].name,
                        gate: resolve_gate(names_of(raw), raw[k].gate),
                        signal: None,
                    }
                } else {
                    views_of(prev)[k]
                }) by {
                    assert(vw(&wires)[k] == wires@[k]@);
                    assert(views_of(prev)[k] == prev[k]@);
                    if k != i as int {
                        assert(wires@[k] == prev[k]);
                    }
                }
            }
            i += 1;
        }
        proof {
            let ws = vw(&wires);
            assert(names_of(ws) =~= names_of(raw)) by {
                assert forall|k: int| 0 <= k < raw.len() implies names_of(ws)[k] == names_of(
                    raw,
                )[k] by {
                    assert(ws[k].name == raw[k].name);
                }
            }
            assert(distinct_names(ws));
            assert forall|k: int| 0 <= k < ws.len() implies gate_wf(ws, #[trigger] ws[k].gate) by {
                assert(raw[k] == defs@[k]@);
                assert(gate_raw(raw[k].gate));
                assert(ws[k].gate == resolve_gate(names_of(raw), raw[k].gate));
                lemma_resolve_wf(ws, raw[k].gate);
            }
            assert(wires_wf(ws));
            assert forall|k: int| 0 <= k < ws.len() implies cache_entry_ok(
                ws,
                #[trigger] ws[k],
            ) by {}
            assert(caches_ok(ws));
            assert(env_of(ws) =~= env_of(raw)) by {
                assert forall|n: Seq<char>| has_name(ws, n) implies has_name(raw, n) by {
                    let k = choose|k: int| 0 <= k < ws.len() && ws[k].name == n;
                    assert(raw[k].name == n);
                }
                assert forall|n: Seq<char>| has_name(raw, n) implies has_name(ws, n) by {
                    let k = choose|k: int| 0 <= k < raw.len() && raw[k].name == n;
                    assert(ws[k].name == n);
                }
                assert forall|n: Seq<char>| has_name(ws, n) implies env_of(ws)[n] == env_of(
                    raw,
                )[n] by {
                    let ia = index_of_name(ws, n);
                    let ib = index_of_name(raw, n);
                    assert(0 <= ia < ws.len() && ws[ia].name == n);
                    assert(0 <= ib < raw.len() && raw[ib].name == n);
                    assert(raw[ia].name == n);
                    assert(ib == ia);
                    assert(ws[ia].gate == resolve_gate(names_of(raw), raw[ia].gate));
                    lemma_resolve_abs(ws, raw[ia].gate);
                    lemma_gate_abs_same(ws, raw, raw[ia].gate);
                }
            }
        }
        Some(Circuit { wires })
    }

    /// Whether some wire of the circuit carries this name.
    pub fn contains(&self, name: &str) -> (r: bool)
        ensures
            r == has_name(self@, name@),
    {
        let r = find_wire(&self.wires, name);
        proof {
            if r is Some {
                assert(has_name(self@, name@));
            }
        }
        r.is_some()
    }

    /// The signal of the named wire: "no signal" when no wire carries the
    /// name, when a dangling reference feeds it, or when its references form
    /// a cycle; otherwise its gate's canonical value.  A defined result is
    /// memoized, and a wire whose cache slot is already filled is answered
    /// from the cache alone, with the circuit left untouched.
    pub fn get(&mut self, name: &str) -> (r: Option<u16>)
        requires
            old(self).wf(),
        ensures
            final(self).wf(),
            evolves(old(self)@, final(self)@),
            final(self).defs() == old(self).defs(),
            r == map_signal(old(self).defs(), name@),
            has_name(old(self)@, name@) && old(self)@[index_of_name(old(self)@, name@)].signal
                is Some ==> final(self)@ == old(self)@ && r == old(self)@[index_of_name(
                old(self)@,
                name@,
            )].signal,
            r is Some && has_name(old(self)@, name@) ==> final(self)@[index_of_name(
                old(self)@,
                name@,
            )].signal == r,
    {
        let found = find_wire(&self.wires, name);
        match found {
            None => {
                proof {
                    lemma_evolve_refl(self@);
                    assert(!self.defs().dom().contains(name@));
                }
                None
            },
            Some(i) => {
                let ghost ws0 = vw(&self.wires);
                proof {
                    let k = index_of_name(ws0, name@);
                    assert(has_name(ws0, name@));
                    assert(0 <= k < ws0.len() && ws0[k].name == name@);
                    assert(k == i as int);
                }
                let n = self.wires.len();
                let r = eval_wire(&mut self.wires, i, n);
                proof {
                    lemma_env_dom(ws0);
                    lemma_env_same(ws0, vw(&self.wires));
                }
                r
            },
        }
    }

    /// Clear every wire's cache slot without changing any gate.
    pub fn reset(&mut self)
        requires
            old(self).wf(),
        ensures
            final(self).wf(),
            same_structure(old(self)@, final(self)@),
            forall|k: int| 0 <= k < final(self)@.len() ==> (#[trigger] final(self)@[k].signal)
                is None,
            final(self).defs() == old(self).defs(),
    {
        let ghost ws0 = self@;
        let mut i: usize = 0;
        while i < self.wires.len()
            invariant
                self@.len() == ws0.len(),
                self.wires@.len() == ws0.len(),
                i <= ws0.len(),
                forall|k: int| 0 <= k < ws0.len() ==> #[trigger] structure_eq(ws0[k], self@[k]),
                forall|k: int| 0 <= k < i ==> (#[trigger] self@[k].signal) is None,
            decreases self.wires.len() - i,
        {
            let ghost prev = self.wires@;
            self.wires[i].signal = None;
            proof {
                assert forall|k: int| 0 <= k < ws0.len() implies #[trigger] structure_eq(
                    ws0[k],
                    self@[k],
                ) by {
                    assert(self@[k] == self.wires@[k]@);
                    assert(views_of(prev)[k] == prev[k]@);
                    assert(structure_eq(ws0[k], views_of(prev)[k]));
                    if k != i as int {
                        assert(self.wires@[k] == prev[k]);
                    } else {
                        assert(self.wires@[k].name == prev[k].name);
                        assert(self.wires@[k].gate == prev[k].gate);
                    }
                }
                assert forall|k: int| 0 <= k < i + 1 implies (#[trigger] self@[k].signal)
                    is None by {
                    assert(self@[k] == self.wires@[k]@);
                    assert(views_of(prev)[k] == prev[k]@);
                    if k != i as int {
                        assert(self.wires@[k] == prev[k]);
                        assert(views_of(prev)[k].signal is None);
                    }
                }
            }
            i += 1;
        }
        proof {
            let ws1 = self@;
            assert(same_structure(ws0, ws1));
            crate::semantics::lemma_wf_same(ws0, ws1);
            assert forall|k: int| 0 <= k < ws1.len() implies cache_entry_ok(
                ws1,
                #[trigger] ws1[k],
            ) by {}
            lemma_env_same(ws0, ws1);
        }
    }

    /// Replace the named wire's gate with a constant source, then clear
    /// every cache slot: every memoized value might otherwise be stale once
    /// an upstream truth changes.
    #[verifier::rlimit(60)]
    pub fn set(&mut self, name: &str, signal: u16)
        requires
            old(self).wf(),
            has_name(old(self)@, name@),
        ensures
            final(self).wf(),
            final(self)@.len() == old(self)@.len(),
            names_of(final(self)@) == names_of(old(self)@),
            forall|k: int| 0 <= k < final(self)@.len() ==> (#[trigger] final(self)@[k].signal)
                is None,
            final(self).defs() == old(self).defs().insert(
                name@,
                GateAbs::Single(InputAbs::Literal(signal)),
            ),
    {
        let ghost ws0 = self@;
        self.reset();
        let ghost ws1 = self@;
        proof {
            crate::semantics::lemma_same_structure_names(ws0, ws1);
            assert(has_name(ws1, name@)) by {
                let k = choose|k: int| 0 <= k < ws0.len() && ws0[k].name == name@;
                assert(structure_eq(ws0[k], ws1[k]));
            }
        }
        let found = find_wire(&self.wires, name);
        match found {
            None => {
                proof {
                    assert(false);
                }
            },
            Some(i) => {
                self.wires[i].gate = Gate::Single(Input::Signal(signal));
                proof {
                    let ws2 = self@;
                    assert(ws2.len() == ws1.len());
                    assert forall|k: int| 0 <= k < ws1.len() implies names_of(ws2)[k] == names_of(
                        ws1,
                    )[k] by {
                        assert(ws2[k].name == ws1[k].name);
                    }
                    assert(names_of(ws2) =~= names_of(ws1));
                    assert forall|n: Seq<char>| has_name(ws2, n) implies has_name(ws1, n) by {
                        let k = choose|k: int| 0 <= k < ws2.len() && ws2[k].name == n;
                        assert(ws1[k].name == n);
                    }
                    assert forall|n: Seq<char>| has_name(ws1, n) implies has_name(ws2, n) by {
                        let k = choose|k: int| 0 <= k < ws1.len() && ws1[k].name == n;
                        assert(ws2[k].name == n);
                    }
                    assert(distinct_names(ws2)) by {
                        assert forall|a: int, b: int| 0 <= a < b < ws2.len() implies ws2[a].name
                            != ws2[b].name by {
                            assert(ws2[a].name == ws1[a].name && ws2[b].name == ws1[b].name);
                        }
                    }
                    assert forall|k: int| 0 <= k < ws2.len() implies gate_wf(
                        ws2,
                        #[trigger] ws2[k].gate,
                    ) by {
                        if k == i as int {
                            assert(gate_wf(ws2, GateView::Single(crate::wires::InputView::Signal(
                                signal,
                            ))));
                        } else {
                            assert(ws2[k].gate == ws1[k].gate);
                            assert(gate_wf(ws1, ws1[k].gate));
                            crate::semantics::lemma_gate_wf_names(ws1, ws2, ws1[k].gate);
                        }
                    }
                    assert forall|k: int| 0 <= k < ws2.len() implies (#[trigger] ws2[k].signal)
                        is None by {
                        assert(ws1[k].signal is None);
                        if k != i as int {
                            assert(ws2[k] == ws1[k]);
                        } else {
                            assert(ws2[k].signal == ws1[k].signal);
                        }
                    }
                    assert forall|k: int| 0 <= k < ws2.len() implies cache_entry_ok(
                        ws2,
                        #[trigger] ws2[k],
                    ) by {
                        assert(ws2[k].signal is None);
                    }
                    assert(env_of(ws2) =~= env_of(ws1).insert(
                        name@,
                        GateAbs::Single(InputAbs::Literal(signal)),
                    )) by {
                        assert forall|n: Seq<char>| has_name(ws2, n) implies env_of(ws2)[n]
                            == env_of(ws1).insert(
                            name@,
                            GateAbs::Single(InputAbs::Literal(signal)),
                        )[n] by {
                            let ka = index_of_name(ws2, n);
                            let kb = index_of_name(ws1, n);
                            assert(0 <= ka < ws2.len() && ws2[ka].name == n);
                            assert(0 <= kb < ws1.len() && ws1[kb].name == n);
                            assert(ws1[ka].name == n);
                            assert(kb == ka);
                            if n == name@ {
                                assert(ws1[i as int].name == name@);
                                assert(ka == i as int);
                                assert(ws2[ka].gate == GateView::Single(
                                    crate::wires::InputView::Signal(signal),
                                ));
                            } else {
                                assert(ka != i as int);
                                assert(ws2[ka].gate == ws1[ka].gate);
                                lemma_gate_abs_same(ws2, ws1, ws1[ka].gate);
                            }
                        }
                    }
                }
            },
        }
    }
}

} // verus!
