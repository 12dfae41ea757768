//! Human-readable messages for the library's errors.
use vstd::prelude::*;
use crate::types::LayoutError;

verus! {

/// The character of the decimal digit `d`.
pub open spec fn digit_char(d: nat) -> char {
    if d == 0 {
        '0'
    } else if d == 1 {
        '1'
    } else if d == 2 {
        '2'
    } else if d == 3 {
        '3'
    } else if d == 4 {
        '4'
    } else if d == 5 {
        '5'
    } else if d == 6 {
        '6'
    } else if d == 7 {
        '7'
    } else if d == 8 {
        '8'
    } else {
        '9'
    }
}

/// The decimal notation of `n`, without leading zeros.
pub open spec fn decimal_spec(n: nat) -> Seq<char>
    decreases n,
{
    if n < 10 {
        seq![digit_char(n)]
    } else {
        decimal_spec(n / 10) + seq![digit_char(n % 10)]
    }
}

/// The one-character string of the decimal digit `d`.
fn digit_str(d: u64) -> (s: &'static str)
    requires
        d < 10,
    ensures
        s@ == seq![digit_char(d as nat)],
{
    if d == 0 {
        proof {
            reveal_strlit("0");
            assert("0"@ =~= seq!['0']);
        }
        "0"
    } else if d == 1 {
        proof {
            reveal_strlit("1");
            assert("1"@ =~= seq!['1']);
        }
        "1"
    } else if d == 2 {
        proof {
            reveal_strlit("2");
            assert("2"@ =~= seq!['2']);
        }
        "2"
    } else if d == 3 {
        proof {
            reveal_strlit("3");
            assert("3"@ =~= seq!['3']);
        }
        "3"
    } else if d == 4 {
        proof {
            reveal_strlit("4");
            assert("4"@ =~= seq!['4']);
        }
        "4"
    } else if d == 5 {
        proof {
            reveal_strlit("5");
            assert("5"@ =~= seq!['5']);
        }
        "5"
    } else if d == 6 {
        proof {
            reveal_strlit("6");
            assert("6"@ =~= seq!['6']);
        }
        "6"
    } else if d == 7 {
        proof {
            reveal_strlit("7");
            assert("7"@ =~= seq!['7']);
        }
        "7"
    } else if d == 8 {
        proof {
            reveal_strlit("8");
            assert("8"@ =~= seq!['8']);
        }
        "8"
    } else {
        proof {
            reveal_strlit("9");
            assert("9"@ =~= seq!['9']);
        }
        "9"
    }
}

/// The decimal notation of `n`.
pub fn decimal(n: u64) -> (s: String)
    ensures
        s@ == decimal_spec(n as nat),
    decreases n,
{
    if n < 10 {
        String::from_str(digit_str(n))
    } else {
        let mut s = decimal(n / 10);
        s.append(digit_str(n % 10));
        s
    }
}

/// The message describing a layout error.
pub open spec fn layout_error_message(e: LayoutError) -> Seq<char> {
    match e {
        LayoutError::CyclicGraph => "graph contains a cycle"@,
        LayoutError::InvalidNodeId { index, id } => "node at index "@ + decimal_spec(index as nat)
            + " has id "@ + decimal_spec(id as nat)
            + "; ids must match their position in `nodes` (use LayoutGraph::add_node)"@,
        LayoutError::DanglingEdge { from, to } => "edge ("@ + decimal_spec(from as nat) + " -> "@
            + decimal_spec(to as nat) + ") references a node id that doesn't exist"@,
        LayoutError::SelfLoop(id) => "node "@ + decimal_spec(id as nat)
            + " has a self-loop edge; remove it with LayoutGraph::extract_self_loops before ranking"@,
        LayoutError::MissingRank(id) => "node "@ + decimal_spec(id as nat)
            + " has no rank assigned; call assign_ranks before this phase"@,
    }
}

impl LayoutError {
    /// The message describing this error.
    pub fn to_string(&self) -> (s: String)
        ensures
            s@ == layout_error_message(*self),
    {
        match self {
            LayoutError::CyclicGraph => String::from_str("graph contains a cycle"),
            LayoutError::InvalidNodeId { index, id } => {
                let mut s = String::from_str("node at index ");
                let a = decimal(*index as u64);
                s.append(a.as_str());
                s.append(" has id ");
                let b = decimal(*id as u64);
                s.append(b.as_str());
                s.append("; ids must match their position in `nodes` (use LayoutGraph::add_node)");
                s
            },
            LayoutError::DanglingEdge { from, to } => {
                let mut s = String::from_str("edge (");
                let a = decimal(*from as u64);
                s.append(a.as_str());
                s.append(" -> ");
                let b = decimal(*to as u64);
                s.append(b.as_str());
                s.append(") references a node id that doesn't exist");
                s
            },
            LayoutError::SelfLoop(id) => {
                let mut s = String::from_str("node ");
                let a = decimal(*id as u64);
                s.append(a.as_str());
                s.append(" has a self-loop edge; remove it with LayoutGraph::extract_self_loops before ranking");
                s
            },
            LayoutError::MissingRank(id) => {
                let mut s = String::from_str("node ");
                let a = decimal(*id as u64);
                s.append(a.as_str());
                s.append(" has no rank assigned; call assign_ranks before this phase");
                s
            },
        }
    }
}

} // verus!
