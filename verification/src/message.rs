//! What an error says, for people to read.

use crate::mlc::MLCError;
use crate::text::{all_digits, decimal, lemma_decimal_is_read_back, push_decimal};
use vstd::prelude::*;
use vstd::string::StringExecFns;

verus! {

/// The decimal digits of `n`, as characters.
pub open spec fn decimal_chars(n: nat) -> Seq<char> {
    decimal(n).map_values(|b: u8| b as char)
}

/// The one character that stands for a digit.
fn digit_text(digit: u8) -> (r: &'static str)
    requires
        48 <= digit <= 57,
    ensures
        r@ == seq![digit as char],
{
    proof {
        reveal_strlit("0");
        reveal_strlit("1");
        reveal_strlit("2");
        reveal_strlit("3");
        reveal_strlit("4");
        reveal_strlit("5");
        reveal_strlit("6");
        reveal_strlit("7");
        reveal_strlit("8");
        reveal_strlit("9");
    }
    let r = if digit == 48 {
        "0"
    } else if digit == 49 {
        "1"
    } else if digit == 50 {
        "2"
    } else if digit == 51 {
        "3"
    } else if digit == 52 {
        "4"
    } else if digit == 53 {
        "5"
    } else if digit == 54 {
        "6"
    } else if digit == 55 {
        "7"
    } else if digit == 56 {
        "8"
    } else {
        "9"
    };
    assert(r@ =~= seq![digit as char]);
    r
}

/// Writes the decimal digits of `n` at the end of `out`.
pub fn append_decimal(out: &mut String, n: u64)
    ensures
        final(out)@ == old(out)@ + decimal_chars(n as nat),
{
    let mut digits: Vec<u8> = Vec::new();
    push_decimal(&mut digits, n);
    proof {
        lemma_decimal_is_read_back(n as nat);
        assert(digits@ =~= decimal(n as nat));
    }
    let ghost chars = decimal_chars(n as nat);
    let mut i: usize = 0;
    assert(out@ =~= old(out)@ + chars.take(0));
    while i < digits.len()
        invariant
            i <= digits.len(),
            digits@ == decimal(n as nat),
            all_digits(digits@),
            chars == decimal_chars(n as nat),
            out@ == old(out)@ + chars.take(i as int),
        decreases digits.len() - i,
    {
        let text = digit_text(digits[i]);
        let ghost before = out@;
        out.append(text);
        proof {
            assert(chars.take(i + 1) =~= chars.take(i as int).push(chars[i as int]));
            assert(chars[i as int] == digits@[i as int] as char);
            assert(out@ =~= old(out)@ + chars.take(i + 1));
        }
        i += 1;
    }
    assert(chars.take(chars.len() as int) =~= chars);
}

impl MLCError {
    /// What the error says.
    pub open spec fn message(&self) -> Seq<char> {
        match self {
            MLCError::GraphHasNoEdges => "Graph has no edges"@,
            MLCError::InconsistentEdgeWeights => "Graph has inconsistent edge weights"@,
            MLCError::StartNodeNotFound(name) => "Start node not found: "@ + name@,
            MLCError::NodeMapNotSet => "Node map not set"@,
            MLCError::UnknownNodeId(n) => "Unknown node id: "@ + decimal_chars(*n as nat),
            MLCError::EmptyStartingQueue => "Starting queue is empty. Specify either a start node or a starting queue."@,
            MLCError::LimitsUninitialized => "Limits must be initialized before running the algorithm"@,
            MLCError::WeightOverflow(n) => "Weight overflow at node: "@ + decimal_chars(*n as nat),
            MLCError::InvalidLabelUpdate(n) => "Invalid label update at node: "@ + decimal_chars(
                *n as nat,
            ),
        }
    }

    /// What the error says.
    pub fn to_string(&self) -> (r: String)
        ensures
            r@ == self.message(),
    {
        match self {
            MLCError::GraphHasNoEdges => String::from_str("Graph has no edges"),
            MLCError::InconsistentEdgeWeights => String::from_str(
                "Graph has inconsistent edge weights",
            ),
            MLCError::StartNodeNotFound(name) => {
                let mut r = String::from_str("Start node not found: ");
                r.append(name.as_str());
                r
            },
            MLCError::NodeMapNotSet => String::from_str("Node map not set"),
            MLCError::UnknownNodeId(n) => {
                let mut r = String::from_str("Unknown node id: ");
                append_decimal(&mut r, *n as u64);
                r
            },
            MLCError::EmptyStartingQueue => String::from_str(
                "Starting queue is empty. Specify either a start node or a starting queue.",
            ),
            MLCError::LimitsUninitialized => String::from_str(
                "Limits must be initialized before running the algorithm",
            ),
            MLCError::WeightOverflow(n) => {
                let mut r = String::from_str("Weight overflow at node: ");
                append_decimal(&mut r, *n as u64);
                r
            },
            MLCError::InvalidLabelUpdate(n) => {
                let mut r = String::from_str("Invalid label update at node: ");
                append_decimal(&mut r, *n as u64);
                r
            },
        }
    }
}

} // verus!
