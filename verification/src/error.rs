//! The errors of circuit construction and witness generation, and their
//! messages.

use vstd::prelude::*;
use vstd::string::StringExecFns;

verus! {

/// A cell reference that names no cell.
#[derive(Clone, Copy, Debug, PartialEq, Eq, Structural)]
pub enum RefError {
    /// No input has this 1-based index.
    Input(usize),
    /// No wire cell has been allocated at this address.
    Wire(usize),
}

/// Why a circuit could not be extended or built.
#[derive(Clone, Copy, Debug, PartialEq, Eq, Structural)]
pub enum CircuitError {
    /// The left operand of a gate names no cell.
    Lhs(RefError),
    /// The right operand of a gate names no cell.
    Rhs(RefError),
    /// A recorded wire constraint names no cell of the finished circuit.
    Constraint(RefError),
    /// A circuit needs at least one gate: its last gate gives the output.
    NoRows,
}

/// Why no witness came out.
#[derive(Clone, Copy, Debug, PartialEq, Eq, Structural)]
pub enum WitnessError {
    /// Some cell was never reached from the inputs.
    IncompleteTrace,
}

/// The character of a decimal digit.
pub open spec fn digit_char(d: nat) -> char {
    if d == 0 {
        '0'
    } else if d == 1 {
        '1'
    } else if d == 2 {
        '2'
    } else if d == 3 {
        '3'
    } else if d == 4 {
        '4'
    } else if d == 5 {
        '5'
    } else if d == 6 {
        '6'
    } else if d == 7 {
        '7'
    } else if d == 8 {
        '8'
    } else {
        '9'
    }
}

/// A number in decimal, without leading zeros.
pub open spec fn decimal(n: nat) -> Seq<char>
    decreases n,
{
    if n < 10 {
        seq![digit_char(n)]
    } else {
        decimal(n / 10).push(digit_char(n % 10))
    }
}

fn digit_str(d: usize) -> (s: &'static str)
    requires
        d < 10,
    ensures
        s@ == seq![digit_char(d as nat)],
{
    proof {
        reveal_strlit("0");
        reveal_strlit("1");
        reveal_strlit("2");
        reveal_strlit("3");
        reveal_strlit("4");
        reveal_strlit("5");
        reveal_strlit("6");
        reveal_strlit("7");
        reveal_strlit("8");
        reveal_strlit("9");
    }
    let s = if d == 0 {
        "0"
    } else if d == 1 {
        "1"
    } else if d == 2 {
        "2"
    } else if d == 3 {
        "3"
    } else if d == 4 {
        "4"
    } else if d == 5 {
        "5"
    } else if d == 6 {
        "6"
    } else if d == 7 {
        "7"
    } else if d == 8 {
        "8"
    } else {
        "9"
    };
    assert(s@ =~= seq![digit_char(d as nat)]);
    s
}

/// Writes a number in decimal.
pub fn decimal_string(n: usize) -> (s: String)
    ensures
        s@ == decimal(n as nat),
    decreases n,
{
    if n < 10 {
        String::from_str(digit_str(n))
    } else {
        let mut s = decimal_string(n / 10);
        s.append(digit_str(n % 10));
        assert(s@ =~= decimal((n / 10) as nat).push(digit_char((n % 10) as nat)));
        s
    }
}

impl RefError {
    /// The text of the error.
    pub open spec fn spec_message(&self) -> Seq<char> {
        match self {
            RefError::Input(x) => "Input "@ + decimal(*x as nat) + " does not exist."@,
            RefError::Wire(x) => "Wire "@ + decimal(*x as nat) + " does not exist."@,
        }
    }

    /// The text of the error: the kind of cell and the index or address
    /// that was asked for.
    pub fn message(&self) -> (s: String)
        ensures
            s@ == self.spec_message(),
    {
        let (mut s, x) = match self {
            RefError::Input(x) => (String::from_str("Input "), *x),
            RefError::Wire(x) => (String::from_str("Wire "), *x),
        };
        let digits = decimal_string(x);
        s.append(digits.as_str());
        s.append(" does not exist.");
        s
    }
}

impl CircuitError {
    /// The text of the error.
    pub open spec fn spec_message(&self) -> Seq<char> {
        match self {
            CircuitError::Lhs(e) => "LHS: "@ + e.spec_message(),
            CircuitError::Rhs(e) => "RHS: "@ + e.spec_message(),
            CircuitError::Constraint(e) => e.spec_message(),
            CircuitError::NoRows => "Circuit has no gate."@,
        }
    }

    /// The text of the error; for a gate operand it starts with the side
    /// the operand stood on.
    pub fn message(&self) -> (s: String)
        ensures
            s@ == self.spec_message(),
    {
        match self {
            CircuitError::Lhs(e) => {
                let mut s = String::from_str("LHS: ");
                let inner = e.message();
                s.append(inner.as_str());
                s
            },
            CircuitError::Rhs(e) => {
                let mut s = String::from_str("RHS: ");
                let inner = e.message();
                s.append(inner.as_str());
                s
            },
            CircuitError::Constraint(e) => e.message(),
            CircuitError::NoRows => String::from_str("Circuit has no gate."),
        }
    }
}

impl WitnessError {
    /// The text of the error.
    pub open spec fn spec_message(&self) -> Seq<char> {
        "Not all the cells are filled"@
    }

    /// The text of the error.
    pub fn message(&self) -> (s: String)
        ensures
            s@ == self.spec_message(),
    {
        String::from_str("Not all the cells are filled")
    }
}

} // verus!
