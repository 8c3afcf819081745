//! Why memoized evaluation is sound: the fuel-indexed semantics is monotone
//! in fuel and stabilizes once the fuel reaches the number of wires, so every
//! wire has one canonical signal (`map_signal`) and a cached value computed
//! with any fuel agrees with it.

use vstd::prelude::*;
use vstd::set_lib::lemma_len_subset;
use vstd::set_lib::lemma_subset_equality;

use crate::semantics::GateAbs;
use crate::semantics::InputAbs;
use crate::semantics::gate_limit;
use crate::semantics::gate_signal;
use crate::semantics::input_limit;
use crate::semantics::input_signal;
use crate::semantics::env_of;
use crate::semantics::map_signal;
use crate::semantics::wire_signal;
use crate::resolve::lemma_raw_abs;
use crate::wires::WireView;
use crate::wires::all_raw;
use crate::wires::distinct_names;
use crate::wires::gate_raw;
use crate::wires::has_name;
use crate::wires::index_of_name;

verus! {

broadcast use vstd::set::group_set_axioms;

/// Monotonicity in fuel, for one operand: a defined value never changes as
/// more reference steps are allowed.
pub proof fn lemma_input_mono(e: Map<Seq<char>, GateAbs>, inp: InputAbs, f1: nat, f2: nat)
    requires
        f1 <= f2,
        input_signal(e, inp, f1) is Some,
    ensures
        input_signal(e, inp, f2) == input_signal(e, inp, f1),
    decreases f1, 0int,
{
    match inp {
        InputAbs::Literal(_) => {},
        InputAbs::Ref(n) => {
            lemma_wire_mono(e, n, (f1 - 1) as nat, (f2 - 1) as nat);
        },
    }
}

/// Monotonicity in fuel, for a gate.
pub proof fn lemma_gate_mono(e: Map<Seq<char>, GateAbs>, g: GateAbs, f1: nat, f2: nat)
    requires
        f1 <= f2,
        gate_signal(e, g, f1) is Some,
    ensures
        gate_signal(e, g, f2) == gate_signal(e, g, f1),
    decreases f1, 1int,
{
    match g {
        GateAbs::Single(a) => {
            lemma_input_mono(e, a, f1, f2);
        },
        GateAbs::And(a, b) => {
            lemma_input_mono(e, a, f1, f2);
            lemma_input_mono(e, b, f1, f2);
        },
        GateAbs::Or(a, b) => {
            lemma_input_mono(e, a, f1, f2);
            lemma_input_mono(e, b, f1, f2);
        },
        GateAbs::RShift(a, _) => {
            lemma_input_mono(e, a, f1, f2);
        },
        GateAbs::LShift(a, _) => {
            lemma_input_mono(e, a, f1, f2);
        },
        GateAbs::Not(a) => {
            lemma_input_mono(e, a, f1, f2);
        },
    }
}

/// Monotonicity in fuel, for a wire.
pub proof fn lemma_wire_mono(e: Map<Seq<char>, GateAbs>, n: Seq<char>, f1: nat, f2: nat)
    requires
        f1 <= f2,
        wire_signal(e, n, f1) is Some,
    ensures
        wire_signal(e, n, f2) == wire_signal(e, n, f1),
    decreases f1, 2int,
{
    if e.dom().contains(n) {
        lemma_gate_mono(e, e[n], f1, f2);
    }
}

/// If two fuels give the same value on every wire, one more reference step on
/// either side still agrees, for one operand.
proof fn lemma_input_congruent(e: Map<Seq<char>, GateAbs>, inp: InputAbs, f1: nat, f2: nat)
    requires
        forall|m: Seq<char>| #[trigger] wire_signal(e, m, f1) == wire_signal(e, m, f2),
    ensures
        input_signal(e, inp, (f1 + 1) as nat) == input_signal(e, inp, (f2 + 1) as nat),
{
    match inp {
        InputAbs::Literal(_) => {},
        InputAbs::Ref(n) => {
            assert(wire_signal(e, n, f1) == wire_signal(e, n, f2));
        },
    }
}

/// If two fuels give the same value on every wire, one more reference step on
/// either side still agrees, for a whole wire.
proof fn lemma_wire_congruent(e: Map<Seq<char>, GateAbs>, n: Seq<char>, f1: nat, f2: nat)
    requires
        forall|m: Seq<char>| #[trigger] wire_signal(e, m, f1) == wire_signal(e, m, f2),
    ensures
        wire_signal(e, n, (f1 + 1) as nat) == wire_signal(e, n, (f2 + 1) as nat),
{
    if e.dom().contains(n) {
        match e[n] {
            GateAbs::Single(a) => {
                lemma_input_congruent(e, a, f1, f2);
            },
            GateAbs::And(a, b) => {
                lemma_input_congruent(e, a, f1, f2);
                lemma_input_congruent(e, b, f1, f2);
            },
            GateAbs::Or(a, b) => {
                lemma_input_congruent(e, a, f1, f2);
                lemma_input_congruent(e, b, f1, f2);
            },
            GateAbs::RShift(a, _) => {
                lemma_input_congruent(e, a, f1, f2);
            },
            GateAbs::LShift(a, _) => {
                lemma_input_congruent(e, a, f1, f2);
            },
            GateAbs::Not(a) => {
                lemma_input_congruent(e, a, f1, f2);
            },
        }
    }
}

/// Once one fuel step changes nothing, no later fuel changes anything.
proof fn lemma_stable_above(e: Map<Seq<char>, GateAbs>, f: nat, g: nat)
    requires
        g >= f,
        forall|m: Seq<char>| #[trigger] wire_signal(e, m, (f + 1) as nat) == wire_signal(
            e,
            m,
            f,
        ),
    ensures
        forall|m: Seq<char>| #[trigger] wire_signal(e, m, g) == wire_signal(e, m, f),
    decreases g,
{
    if g > f {
        lemma_stable_above(e, f, (g - 1) as nat);
        assert forall|m: Seq<char>| #[trigger] wire_signal(e, m, g) == wire_signal(
            e,
            m,
            f,
        ) by {
            lemma_wire_congruent(e, m, (g - 1) as nat, f);
        }
    }
}

/// The wires whose signal is defined within a given fuel.
pub open spec fn defined_at(e: Map<Seq<char>, GateAbs>, f: nat) -> Set<Seq<char>> {
    e.dom().filter(|n: Seq<char>| wire_signal(e, n, f) is Some)
}

/// Definedness only grows with fuel.
proof fn lemma_defined_mono(e: Map<Seq<char>, GateAbs>, f: nat)
    ensures
        defined_at(e, f).subset_of(defined_at(e, (f + 1) as nat)),
{
    assert forall|n: Seq<char>| defined_at(e, f).contains(n) implies defined_at(
        e,
        (f + 1) as nat,
    ).contains(n) by {
        lemma_wire_mono(e, n, f, (f + 1) as nat);
    }
}

/// When two consecutive fuels define the same wires, they agree on every
/// wire's value.
proof fn lemma_defined_eq_pointwise(e: Map<Seq<char>, GateAbs>, f: nat)
    requires
        defined_at(e, f) == defined_at(e, (f + 1) as nat),
    ensures
        forall|m: Seq<char>| #[trigger] wire_signal(e, m, (f + 1) as nat) == wire_signal(
            e,
            m,
            f,
        ),
{
    assert forall|m: Seq<char>| #[trigger] wire_signal(e, m, (f + 1) as nat) == wire_signal(
        e,
        m,
        f,
    ) by {
        if e.dom().contains(m) {
            if wire_signal(e, m, f) is Some {
                lemma_wire_mono(e, m, f, (f + 1) as nat);
            } else {
                assert(!defined_at(e, f).contains(m));
                assert(!defined_at(e, (f + 1) as nat).contains(m));
            }
        }
    }
}

/// While every fuel step defines a new wire, at least `f` wires are defined
/// within fuel `f`.
proof fn lemma_growth(e: Map<Seq<char>, GateAbs>, f: nat)
    requires
        e.dom().finite(),
        forall|g: nat| g < f ==> #[trigger] defined_at(e, g) != defined_at(e, (g + 1) as nat),
    ensures
        defined_at(e, f).finite(),
        defined_at(e, f).len() >= f,
    decreases f,
{
    assert(defined_at(e, f).subset_of(e.dom()));
    lemma_len_subset(defined_at(e, f), e.dom());
    if f > 0 {
        let f0 = (f - 1) as nat;
        lemma_growth(e, f0);
        lemma_defined_mono(e, f0);
        let d1 = defined_at(e, f0);
        let d2 = defined_at(e, f);
        assert(f == (f0 + 1) as nat);
        assert(d1 != d2);
        assert(d1.subset_of(d2));
        if forall|x: Seq<char>| d2.contains(x) ==> #[trigger] d1.contains(x) {
            assert(d1 =~= d2);
            assert(false);
        }
        let x = choose|x: Seq<char>| d2.contains(x) && !d1.contains(x);
        assert(d1.subset_of(d2.remove(x)));
        lemma_len_subset(d1, d2.remove(x));
    }
}

/// The fuel-indexed values stabilize at the number of wires: any larger fuel
/// gives the same value on every wire.  This is what makes `map_signal` the
/// one canonical signal.
pub proof fn lemma_stabilize(e: Map<Seq<char>, GateAbs>, g: nat)
    requires
        e.dom().finite(),
        g >= e.dom().len(),
    ensures
        forall|n: Seq<char>| #[trigger] wire_signal(e, n, g) == map_signal(e, n),
{
    let l = e.dom().len();
    if exists|f: nat| f < l && #[trigger] defined_at(e, f) == defined_at(e, (f + 1) as nat) {
        let f = choose|f: nat| f < l && #[trigger] defined_at(e, f) == defined_at(
            e,
            (f + 1) as nat,
        );
        lemma_defined_eq_pointwise(e, f);
        lemma_stable_above(e, f, g);
        lemma_stable_above(e, f, l);
    } else {
        lemma_growth(e, l);
        lemma_len_subset(defined_at(e, l), e.dom());
        lemma_subset_equality(defined_at(e, l), e.dom());
        lemma_defined_mono(e, l);
        assert(defined_at(e, (l + 1) as nat).subset_of(e.dom()));
        assert(defined_at(e, l) =~= defined_at(e, (l + 1) as nat));
        lemma_defined_eq_pointwise(e, l);
        lemma_stable_above(e, l, g);
        lemma_stable_above(e, l, l);
    }
}

/// The canonical signal is a fixpoint: a wire's canonical signal is its
/// gate's value with every operand taken at its own canonical signal.
pub proof fn lemma_unfold_limit(e: Map<Seq<char>, GateAbs>, n: Seq<char>)
    requires
        e.dom().finite(),
        e.dom().contains(n),
    ensures
        map_signal(e, n) == gate_limit(e, e[n]),
{
    let l = e.dom().len();
    lemma_stabilize(e, (l + 1) as nat);
    assert(wire_signal(e, n, (l + 1) as nat) == map_signal(e, n));
    assert(gate_signal(e, e[n], (l + 1) as nat) == gate_limit(e, e[n])) by {
        lemma_gate_limit_step(e, e[n], l);
    }
}

/// One reference step above the stabilization fuel reads each operand at its
/// canonical value.
proof fn lemma_gate_limit_step(e: Map<Seq<char>, GateAbs>, g: GateAbs, l: nat)
    requires
        e.dom().finite(),
        l == e.dom().len(),
    ensures
        gate_signal(e, g, (l + 1) as nat) == gate_limit(e, g),
{
    match g {
        GateAbs::Single(a) => {
            lemma_input_limit_step(e, a, l);
        },
        GateAbs::And(a, b) => {
            lemma_input_limit_step(e, a, l);
            lemma_input_limit_step(e, b, l);
        },
        GateAbs::Or(a, b) => {
            lemma_input_limit_step(e, a, l);
            lemma_input_limit_step(e, b, l);
        },
        GateAbs::RShift(a, _) => {
            lemma_input_limit_step(e, a, l);
        },
        GateAbs::LShift(a, _) => {
            lemma_input_limit_step(e, a, l);
        },
        GateAbs::Not(a) => {
            lemma_input_limit_step(e, a, l);
        },
    }
}

/// One operand of an abstract gate is a reference to the given name.
pub open spec fn gate_reads(g: GateAbs, m: Seq<char>) -> bool {
    match g {
        GateAbs::Single(a) => a == InputAbs::Ref(m),
        GateAbs::And(a, b) => a == InputAbs::Ref(m) || b == InputAbs::Ref(m),
        GateAbs::Or(a, b) => a == InputAbs::Ref(m) || b == InputAbs::Ref(m),
        GateAbs::RShift(a, _) => a == InputAbs::Ref(m),
        GateAbs::LShift(a, _) => a == InputAbs::Ref(m),
        GateAbs::Not(a) => a == InputAbs::Ref(m),
    }
}

/// Overriding a wire with a constant source pins its canonical signal to
/// that constant, whatever the rest of the definitions say.
pub proof fn lemma_override(e: Map<Seq<char>, GateAbs>, b: Seq<char>, v: u16)
    ensures
        map_signal(e.insert(b, GateAbs::Single(InputAbs::Literal(v))), b) == Some(v),
{
    let e2 = e.insert(b, GateAbs::Single(InputAbs::Literal(v)));
    assert(e2.dom().contains(b));
    assert(e2[b] == GateAbs::Single(InputAbs::Literal(v)));
}

/// Undefined-ness propagates silently: a wire one of whose operands
/// references a name with no canonical signal — in particular a name that no
/// wire carries, whose `map_signal` is "no signal" by definition — has no
/// canonical signal itself, and never a fatal condition.
pub proof fn lemma_no_signal_propagates(
    e: Map<Seq<char>, GateAbs>,
    n: Seq<char>,
    m: Seq<char>,
)
    requires
        e.dom().finite(),
        e.dom().contains(n),
        gate_reads(e[n], m),
        map_signal(e, m) is None,
    ensures
        map_signal(e, n) is None,
{
    lemma_unfold_limit(e, n);
    assert(input_limit(e, InputAbs::Ref(m)) is None);
}

/// Every reference operand of an abstract gate points into the given set of
/// names.
pub open spec fn gate_refs_in(g: GateAbs, s: Set<Seq<char>>) -> bool {
    match g {
        GateAbs::Single(a) => input_ref_in(a, s),
        GateAbs::And(a, b) => input_ref_in(a, s) && input_ref_in(b, s),
        GateAbs::Or(a, b) => input_ref_in(a, s) && input_ref_in(b, s),
        GateAbs::RShift(a, _) => input_ref_in(a, s),
        GateAbs::LShift(a, _) => input_ref_in(a, s),
        GateAbs::Not(a) => input_ref_in(a, s),
    }
}

/// One operand either is a literal or references a name of the set.
pub open spec fn input_ref_in(a: InputAbs, s: Set<Seq<char>>) -> bool {
    match a {
        InputAbs::Literal(_) => true,
        InputAbs::Ref(p) => s.contains(p),
    }
}

/// The hypotheses of the frame law: the two definition maps define the same
/// names, and on the given set — closed under references — they agree.
pub open spec fn frame_hyp(
    e1: Map<Seq<char>, GateAbs>,
    e2: Map<Seq<char>, GateAbs>,
    s: Set<Seq<char>>,
) -> bool {
    &&& e1.dom() == e2.dom()
    &&& forall|m: Seq<char>| #[trigger] s.contains(m) && e1.dom().contains(m) ==> e1[m] == e2[m]
        && gate_refs_in(e1[m], s)
}

/// The frame law, operand level.
proof fn lemma_frame_input(
    e1: Map<Seq<char>, GateAbs>,
    e2: Map<Seq<char>, GateAbs>,
    s: Set<Seq<char>>,
    a: InputAbs,
    fuel: nat,
)
    requires
        frame_hyp(e1, e2, s),
        input_ref_in(a, s),
    ensures
        input_signal(e1, a, fuel) == input_signal(e2, a, fuel),
    decreases fuel, 0int,
{
    match a {
        InputAbs::Literal(_) => {},
        InputAbs::Ref(p) => {
            if fuel > 0 {
                lemma_frame(e1, e2, s, p, (fuel - 1) as nat);
            }
        },
    }
}

/// The frame law: two definition maps defining the same names and agreeing
/// on a set of wires that is closed under its own references give every wire
/// of that set the same fuel-indexed signal.
pub proof fn lemma_frame(
    e1: Map<Seq<char>, GateAbs>,
    e2: Map<Seq<char>, GateAbs>,
    s: Set<Seq<char>>,
    n: Seq<char>,
    fuel: nat,
)
    requires
        frame_hyp(e1, e2, s),
        s.contains(n),
    ensures
        wire_signal(e1, n, fuel) == wire_signal(e2, n, fuel),
    decreases fuel, 1int,
{
    if e1.dom().contains(n) {
        assert(e1[n] == e2[n] && gate_refs_in(e1[n], s));
        match e1[n] {
            GateAbs::Single(a) => {
                lemma_frame_input(e1, e2, s, a, fuel);
            },
            GateAbs::And(a, b) => {
                lemma_frame_input(e1, e2, s, a, fuel);
                lemma_frame_input(e1, e2, s, b, fuel);
            },
            GateAbs::Or(a, b) => {
                lemma_frame_input(e1, e2, s, a, fuel);
                lemma_frame_input(e1, e2, s, b, fuel);
            },
            GateAbs::RShift(a, _) => {
                lemma_frame_input(e1, e2, s, a, fuel);
            },
            GateAbs::LShift(a, _) => {
                lemma_frame_input(e1, e2, s, a, fuel);
            },
            GateAbs::Not(a) => {
                lemma_frame_input(e1, e2, s, a, fuel);
            },
        }
    }
}

/// Overriding one wire leaves every wire with no dependency path to it
/// unaffected in value: any set of wires that is closed under its own
/// references and avoids the overridden wire keeps all its canonical
/// signals.
pub proof fn lemma_override_frame(
    e: Map<Seq<char>, GateAbs>,
    b: Seq<char>,
    v: u16,
    s: Set<Seq<char>>,
    n: Seq<char>,
)
    requires
        e.dom().contains(b),
        forall|m: Seq<char>| #[trigger] s.contains(m) && e.dom().contains(m) ==> gate_refs_in(
            e[m],
            s,
        ),
        !s.contains(b),
        s.contains(n),
    ensures
        map_signal(e.insert(b, GateAbs::Single(InputAbs::Literal(v))), n) == map_signal(e, n),
{
    let e2 = e.insert(b, GateAbs::Single(InputAbs::Literal(v)));
    assert(e2.dom() =~= e.dom());
    assert forall|m: Seq<char>| #[trigger] s.contains(m) && e.dom().contains(m) implies e[m]
        == e2[m] && gate_refs_in(e[m], s) by {
        assert(m != b);
    }
    lemma_frame(e, e2, s, n, e.dom().len());
    assert(e2.dom().len() == e.dom().len());
}

/// Order independence: two raw, duplicate-free definition lists holding the
/// same definitions in any permutation denote the same definition map, and
/// so give every wire the same canonical signal.
pub proof fn lemma_order_independence(a: Seq<WireView>, b: Seq<WireView>)
    requires
        all_raw(a),
        all_raw(b),
        distinct_names(a),
        distinct_names(b),
        a.to_multiset() == b.to_multiset(),
    ensures
        env_of(a) == env_of(b),
        forall|n: Seq<char>| #[trigger] map_signal(env_of(a), n) == map_signal(env_of(b), n),
{
    a.to_multiset_ensures();
    b.to_multiset_ensures();
    assert forall|n: Seq<char>| has_name(a, n) implies has_name(b, n) by {
        let i = choose|i: int| 0 <= i < a.len() && a[i].name == n;
        let w = a[i];
        assert(a.contains(w));
        assert(b.to_multiset().count(w) > 0);
        assert(b.contains(w));
        let j = choose|j: int| 0 <= j < b.len() && b[j] == w;
        assert(b[j].name == n);
    }
    assert forall|n: Seq<char>| has_name(b, n) implies has_name(a, n) by {
        let i = choose|i: int| 0 <= i < b.len() && b[i].name == n;
        let w = b[i];
        assert(b.contains(w));
        assert(a.to_multiset().count(w) > 0);
        assert(a.contains(w));
        let j = choose|j: int| 0 <= j < a.len() && a[j] == w;
        assert(a[j].name == n);
    }
    assert(env_of(a) =~= env_of(b)) by {
        assert forall|n: Seq<char>| has_name(a, n) implies env_of(a)[n] == env_of(b)[n] by {
            let ia = index_of_name(a, n);
            assert(0 <= ia < a.len() && a[ia].name == n);
            let w = a[ia];
            assert(a.contains(w));
            assert(b.to_multiset().count(w) > 0);
            assert(b.contains(w));
            let j = choose|j: int| 0 <= j < b.len() && b[j] == w;
            let ib = index_of_name(b, n);
            assert(0 <= ib < b.len() && b[ib].name == n);
            assert(b[j].name == n);
            assert(ib == j);
            assert(b[ib].gate == a[ia].gate);
            assert(gate_raw(a[ia].gate));
            lemma_raw_abs(a, b, a[ia].gate);
        }
    }
}

/// One reference step above the stabilization fuel reads one operand at its
/// canonical value.
proof fn lemma_input_limit_step(e: Map<Seq<char>, GateAbs>, inp: InputAbs, l: nat)
    requires
        e.dom().finite(),
        l == e.dom().len(),
    ensures
        input_signal(e, inp, (l + 1) as nat) == input_limit(e, inp),
{
    match inp {
        InputAbs::Literal(_) => {},
        InputAbs::Ref(m) => {
            assert(input_signal(e, inp, (l + 1) as nat) == wire_signal(e, m, l));
        },
    }
}

} // verus!

