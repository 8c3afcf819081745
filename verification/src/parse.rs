//! Parsing one textual wire definition into structured data.
//!
//! The grammar of a definition line is `"<input> -> <wireName>"`, where
//! `<input>` is one of `"<value>"`, `"<value> AND <value>"`,
//! `"<value> OR <value>"`, `"<value> RSHIFT <amount>"`,
//! `"<value> LSHIFT <amount>"`, `"NOT <value>"`; a `<value>` is a decimal
//! literal between 0 and 65535 or a bare wire name (a numeral too large for
//! 16 bits is read as a name), and an `<amount>` is a decimal literal.

use vstd::prelude::*;

use crate::wires::Connection;
use crate::wires::ConnectionView;
use crate::wires::Gate;
use crate::wires::GateView;
use crate::wires::Input;
use crate::wires::InputView;
use crate::wires::Wire;
use crate::wires::WireView;
use crate::wires::str_eq;

verus! {

/// A decimal digit.
pub open spec fn is_digit(c: char) -> bool {
    48 <= (c as u32) && (c as u32) <= 57
}

/// The value of one decimal digit.
pub open spec fn digit_val(c: char) -> int {
    (c as u32) - 48
}

/// Every character of the token is a decimal digit.
pub open spec fn all_digits(s: Seq<char>) -> bool {
    forall|i: int| 0 <= i < s.len() ==> #[trigger] is_digit(s[i])
}

/// The value of a digit string, most significant digit first.
pub open spec fn numeral_value(s: Seq<char>) -> int
    decreases s.len(),
{
    if s.len() == 0 {
        0
    } else {
        numeral_value(s.drop_last()) * 10 + digit_val(s.last())
    }
}

/// A token that reads as a 16-bit value: nonempty, all digits, and small
/// enough.  Anything else — a larger numeral included — is a wire name.
pub open spec fn is_u16_numeral(s: Seq<char>) -> bool {
    s.len() > 0 && all_digits(s) && numeral_value(s) <= 65535
}

/// The input a token denotes: a literal signal where it reads as a 16-bit
/// value, else an unresolved reference carrying the token as a name.
pub open spec fn token_input(t: Seq<char>) -> InputView {
    if is_u16_numeral(t) {
        InputView::Signal(numeral_value(t) as u16)
    } else {
        InputView::Connection(ConnectionView::Disconnected(t))
    }
}

/// Splitting on single spaces, exactly as the tokenizer sees it: an empty
/// string is one empty token, and adjacent spaces make empty tokens.
pub open spec fn split_tokens(s: Seq<char>) -> Seq<Seq<char>>
    decreases s.len(),
{
    if s.len() == 0 {
        seq![Seq::<char>::empty()]
    } else if s[0] == ' ' {
        seq![Seq::<char>::empty()] + split_tokens(s.drop_first())
    } else {
        let rest = split_tokens(s.drop_first());
        rest.update(0, seq![s[0]] + rest[0])
    }
}

/// Splitting always yields at least one token.
pub proof fn lemma_split_len(s: Seq<char>)
    ensures
        split_tokens(s).len() >= 1,
    decreases s.len(),
{
    if s.len() > 0 {
        lemma_split_len(s.drop_first());
    }
}

/// A string without spaces is one token: itself.
proof fn lemma_split_no_space(s: Seq<char>)
    requires
        forall|i: int| 0 <= i < s.len() ==> s[i] != ' ',
    ensures
        split_tokens(s) == seq![s],
    decreases s.len(),
{
    if s.len() == 0 {
        assert(Seq::<char>::empty() =~= s);
        assert(split_tokens(s) =~= seq![s]);
    } else {
        lemma_split_no_space(s.drop_first());
        lemma_split_len(s.drop_first());
        assert(seq![s[0]] + s.drop_first() =~= s);
        assert(split_tokens(s) =~= seq![s]);
    }
}

/// Splitting at the first space: the head token, then the split of what
/// follows the space.
proof fn lemma_split_at_space(s: Seq<char>, i: int)
    requires
        0 <= i < s.len(),
        s[i] == ' ',
        forall|k: int| 0 <= k < i ==> s[k] != ' ',
    ensures
        split_tokens(s) == seq![s.take(i)] + split_tokens(s.skip(i + 1)),
    decreases i,
{
    if i == 0 {
        assert(s.take(0) =~= Seq::<char>::empty());
        assert(s.skip(1) =~= s.drop_first());
        assert(split_tokens(s) =~= seq![s.take(0)] + split_tokens(s.skip(1)));
    } else {
        let t = s.drop_first();
        assert(t[i - 1] == ' ');
        assert forall|k: int| 0 <= k < i - 1 implies t[k] != ' ' by {
            assert(s[k + 1] != ' ');
        }
        lemma_split_at_space(t, i - 1);
        lemma_split_len(t.skip(i));
        assert(t.skip(i) =~= s.skip(i + 1));
        assert(seq![s[0]] + t.take(i - 1) =~= s.take(i));
        assert(split_tokens(s) =~= seq![s.take(i)] + split_tokens(s.skip(i + 1)));
    }
}

/// Split a string on single spaces into owned tokens.
fn split_str(s: &str) -> (r: Vec<String>)
    ensures
        r@.len() == split_tokens(s@).len(),
        forall|k: int| 0 <= k < r@.len() ==> (#[trigger] r@[k])@ == split_tokens(s@)[k],
    decreases s@.len(),
{
    let len = s.unicode_len();
    let mut j: usize = 0;
    while j < len && s.get_char(j) != ' '
        invariant
            j <= len,
            len == s@.len(),
            forall|k: int| 0 <= k < j ==> s@[k] != ' ',
        decreases len - j,
    {
        j += 1;
    }
    if j == len {
        proof {
            lemma_split_no_space(s@);
        }
        let tok = s.to_owned();
        let mut out: Vec<String> = Vec::new();
        out.push(tok);
        out
    } else {
        proof {
            lemma_split_at_space(s@, j as int);
        }
        let tok = s.substring_char(0, j).to_owned();
        let rest_str = s.substring_char(j + 1, len);
        proof {
            assert(rest_str@ =~= s@.skip(j as int + 1));
        }
        let mut out = split_str(rest_str);
        out.insert(0, tok);
        proof {
            assert(tok@ =~= s@.take(j as int));
            assert forall|k: int| 0 <= k < out@.len() implies (#[trigger] out@[k])@
                == split_tokens(s@)[k] by {
                if k > 0 {
                    assert(out@[k]@ == split_tokens(rest_str@)[k - 1]);
                }
            }
        }
        out
    }
}

/// Read a token as a 16-bit decimal numeral, if it is one.
fn parse_u16(t: &str) -> (r: Option<u16>)
    ensures
        r is Some ==> is_u16_numeral(t@) && r->Some_0 == numeral_value(t@) as u16,
        r is None ==> !is_u16_numeral(t@),
{
    let len = t.unicode_len();
    if len == 0 {
        return None;
    }
    let mut i: usize = 0;
    let mut acc: u32 = 0;
    let mut big = false;
    while i < len
        invariant
            i <= len,
            len == t@.len(),
            forall|k: int| 0 <= k < i ==> #[trigger] is_digit(t@[k]),
            !big ==> acc as int == numeral_value(t@.take(i as int)) && acc <= 65535,
            big ==> numeral_value(t@.take(i as int)) > 65535,
        decreases len - i,
    {
        let c = t.get_char(i);
        let cv = c as u32;
        if cv < 48 || cv > 57 {
            proof {
                assert(!is_digit(t@[i as int]));
            }
            return None;
        }
        let d = cv - 48;
        proof {
            assert(t@.take(i as int + 1).drop_last() =~= t@.take(i as int));
            assert(t@.take(i as int + 1).last() == t@[i as int]);
            assert(numeral_value(t@.take(i as int + 1)) == numeral_value(t@.take(i as int)) * 10
                + digit_val(t@[i as int]));
        }
        if !big {
            let next: u32 = acc * 10 + d;
            if next > 65535 {
                big = true;
                acc = 0;
            } else {
                acc = next;
            }
        }
        i += 1;
    }
    proof {
        assert(t@.take(len as int) =~= t@);
    }
    if big {
        None
    } else {
        Some(acc as u16)
    }
}

/// Build the input a token denotes.
fn token_to_input(t: &String) -> (r: Input)
    ensures
        r@ == token_input(t@),
{
    match parse_u16(t.as_str()) {
        Some(v) => Input::Signal(v),
        None => Input::Connection(Connection::Disconnected(t.clone())),
    }
}

/// What a gate description denotes, token by token; `None` for text outside
/// the grammar (an unknown operator, a wrong token count, a shift amount
/// that is no 16-bit numeral).
pub open spec fn parse_gate(s: Seq<char>) -> Option<GateView> {
    let ts = split_tokens(s);
    if ts.len() == 1 {
        Some(GateView::Single(token_input(ts[0])))
    } else if ts.len() == 2 {
        if ts[0] == "NOT"@ {
            Some(GateView::Not(token_input(ts[1])))
        } else {
            None
        }
    } else if ts.len() == 3 {
        if ts[1] == "AND"@ {
            Some(GateView::And(token_input(ts[0]), token_input(ts[2])))
        } else if ts[1] == "OR"@ {
            Some(GateView::Or(token_input(ts[0]), token_input(ts[2])))
        } else if ts[1] == "RSHIFT"@ {
            if is_u16_numeral(ts[2]) {
                Some(GateView::RShift(token_input(ts[0]), numeral_value(ts[2]) as u16))
            } else {
                None
            }
        } else if ts[1] == "LSHIFT"@ {
            if is_u16_numeral(ts[2]) {
                Some(GateView::LShift(token_input(ts[0]), numeral_value(ts[2]) as u16))
            } else {
                None
            }
        } else {
            None
        }
    } else {
        None
    }
}

impl Gate {
    /// Parse one gate description.  Text outside the grammar yields `None`.
    pub fn parse(string: &str) -> (r: Option<Gate>)
        ensures
            r is Some ==> parse_gate(string@) == Some((r->Some_0)@),
            r is None ==> parse_gate(string@) is None,
    {
        let toks = split_str(string);
        proof {
            lemma_split_len(string@);
        }
        if toks.len() == 1 {
            Some(Gate::Single(token_to_input(&toks[0])))
        } else if toks.len() == 2 {
            if str_eq(toks[0].as_str(), "NOT") {
                Some(Gate::Not(token_to_input(&toks[1])))
            } else {
                None
            }
        } else if toks.len() == 3 {
            if str_eq(toks[1].as_str(), "AND") {
                Some(Gate::And(token_to_input(&toks[0]), token_to_input(&toks[2])))
            } else if str_eq(toks[1].as_str(), "OR") {
                Some(Gate::Or(token_to_input(&toks[0]), token_to_input(&toks[2])))
            } else if str_eq(toks[1].as_str(), "RSHIFT") {
                match parse_u16(toks[2].as_str()) {
                    Some(k) => Some(Gate::RShift(token_to_input(&toks[0]), k)),
                    None => None,
                }
            } else if str_eq(toks[1].as_str(), "LSHIFT") {
                match parse_u16(toks[2].as_str()) {
                    Some(k) => Some(Gate::LShift(token_to_input(&toks[0]), k)),
                    None => None,
                }
            } else {
                None
            }
        } else {
            None
        }
    }
}

/// The separator between a gate description and the defined wire's name.
pub open spec fn arrow() -> Seq<char> {
    seq![' ', '-', '>', ' ']
}

/// The position of the first separator occurrence, or a negative value.
pub open spec fn find_arrow(s: Seq<char>) -> int
    decreases s.len(),
{
    if s.len() < 4 {
        -1
    } else if s.subrange(0, 4) == arrow() {
        0
    } else {
        let r = find_arrow(s.drop_first());
        if r < 0 {
            -1
        } else {
            1 + r
        }
    }
}

/// What `find_arrow` finds: the first separator occurrence, if any.
proof fn lemma_find_arrow(s: Seq<char>)
    ensures
        find_arrow(s) < 0 ==> forall|i: int|
            0 <= i <= s.len() - 4 ==> #[trigger] s.subrange(i, i + 4) != arrow(),
        find_arrow(s) >= 0 ==> 0 <= find_arrow(s) <= s.len() - 4 && s.subrange(
            find_arrow(s),
            find_arrow(s) + 4,
        ) == arrow() && forall|i: int|
            0 <= i < find_arrow(s) ==> #[trigger] s.subrange(i, i + 4) != arrow(),
    decreases s.len(),
{
    if s.len() >= 4 && s.subrange(0, 4) != arrow() {
        let t = s.drop_first();
        lemma_find_arrow(t);
        assert forall|i: int| 1 <= i <= s.len() - 4 implies #[trigger] s.subrange(i, i + 4)
            == t.subrange(i - 1, i + 3) by {
            assert(s.subrange(i, i + 4) =~= t.subrange(i - 1, i + 3));
        }
        let r = find_arrow(t);
        if r < 0 {
            assert forall|i: int| 0 <= i <= s.len() - 4 implies #[trigger] s.subrange(i, i + 4)
                != arrow() by {
                if i > 0 {
                    assert(t.subrange(i - 1, i - 1 + 4) != arrow());
                    assert(t.subrange(i - 1, i + 3) == t.subrange(i - 1, i - 1 + 4));
                }
            }
        } else {
            assert(t.subrange(r, r + 4) == arrow());
            assert(s.subrange(r + 1, r + 1 + 4) == t.subrange(r + 1 - 1, r + 1 + 3));
            assert(t.subrange(r + 1 - 1, r + 1 + 3) == t.subrange(r, r + 4));
            assert forall|i: int| 0 <= i < find_arrow(s) implies #[trigger] s.subrange(i, i + 4)
                != arrow() by {
                if i > 0 {
                    assert(t.subrange(i - 1, i - 1 + 4) != arrow());
                    assert(t.subrange(i - 1, i + 3) == t.subrange(i - 1, i - 1 + 4));
                }
            }
        }
    }
}

/// What a whole definition line denotes: a gate description before the
/// first `" -> "`, defining the wire named by everything after it, with an
/// empty cache slot; `None` for a line without the separator or with a gate
/// outside the grammar.
pub open spec fn parse_wire(s: Seq<char>) -> Option<WireView> {
    let i = find_arrow(s);
    if i < 0 {
        None
    } else {
        match parse_gate(s.take(i)) {
            None => None,
            Some(g) => Some(WireView { name: s.skip(i + 4), gate: g, signal: None }),
        }
    }
}

/// Whether the separator stands at the given position.
fn arrow_at(s: &str, i: usize) -> (r: bool)
    requires
        i + 4 <= s@.len(),
        s@.len() <= usize::MAX,
    ensures
        r == (s@.subrange(i as int, i as int + 4) == arrow()),
{
    let r = s.get_char(i) == ' ' && s.get_char(i + 1) == '-' && s.get_char(i + 2) == '>'
        && s.get_char(i + 3) == ' ';
    proof {
        let sub = s@.subrange(i as int, i as int + 4);
        if r {
            assert(sub =~= arrow());
        } else {
            assert(sub[0] == s@[i as int] && sub[1] == s@[i as int + 1] && sub[2] == s@[i as int
                + 2] && sub[3] == s@[i as int + 3]);
            assert(arrow()[0] == ' ' && arrow()[1] == '-' && arrow()[2] == '>' && arrow()[3]
                == ' ');
            assert(sub != arrow());
        }
    }
    r
}

impl Wire {
    /// Parse one definition line into a wire node with an empty cache slot.
    /// A line without the `" -> "` separator, or whose gate description lies
    /// outside the grammar, yields `None`.
    pub fn parse(string: &str) -> (r: Option<Wire>)
        ensures
            r is Some ==> parse_wire(string@) == Some((r->Some_0)@),
            r is None ==> parse_wire(string@) is None,
    {
        let len = string.unicode_len();
        let mut i: usize = 0;
        while len - i >= 4 && !arrow_at(string, i)
            invariant
                len == string@.len(),
                i <= len,
                forall|k: int| 0 <= k < i ==> #[trigger] string@.subrange(k, k + 4) != arrow(),
            decreases len - i,
        {
            i += 1;
        }
        proof {
            lemma_find_arrow(string@);
        }
        if len - i < 4 {
            proof {
                assert forall|k: int| 0 <= k <= string@.len() - 4 implies #[trigger] string@.subrange(
                    k,
                    k + 4,
                ) != arrow() by {
                    assert(k < i);
                }
                assert(find_arrow(string@) < 0);
            }
            return None;
        }
        proof {
            assert(find_arrow(string@) == i as int);
        }
        let cmd = string.substring_char(0, i);
        proof {
            assert(cmd@ =~= string@.take(i as int));
        }
        let gate = Gate::parse(cmd);
        match gate {
            None => None,
            Some(g) => {
                let name = string.substring_char(i + 4, len).to_owned();
                proof {
                    assert(name@ =~= string@.skip(i as int + 4));
                }
                Some(Wire { name, gate: g, signal: None })
            },
        }
    }
}

} // verus!
