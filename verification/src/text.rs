//! The messages with which the manager refuses a request.
use vstd::prelude::*;
use vstd::string::*;

verus! {

/// The character of a decimal digit.
pub open spec fn digit_char(d: nat) -> char {
    (48 + d) as char
}

/// The decimal notation of `n`, most significant digit first, without leading zeros.
pub open spec fn decimal(n: nat) -> Seq<char>
    decreases n,
{
    if n < 10 {
        seq![digit_char(n)]
    } else {
        decimal(n / 10).push(digit_char(n % 10))
    }
}

/// The message for a task id that names no task.
pub open spec fn not_found_text(id: usize) -> Seq<char> {
    "Task with id: "@ + decimal(id as nat) + " not found"@
}

/// The message for a parent id that names no task.
pub open spec fn parent_not_found_text(id: usize) -> Seq<char> {
    "Parent task with id: "@ + decimal(id as nat) + " not found"@
}

/// The message for a new subtask order that is not made of the current subtasks.
pub open spec fn bad_order_text() -> Seq<char> {
    "New order must contain the same subtasks"@
}

/// The message for restored data whose hierarchy is inconsistent.
pub open spec fn bad_data_text() -> Seq<char> {
    "Invalid task data: inconsistent task hierarchy"@
}

/// The text of the decimal digit `d`.
fn digit_str(d: usize) -> (s: &'static str)
    requires
        d < 10,
    ensures
        s@ == seq![digit_char(d as nat)],
{
    if d == 0 {
        proof {
            reveal_strlit("0");
        }
        "0"
    } else if d == 1 {
        proof {
            reveal_strlit("1");
        }
        "1"
    } else if d == 2 {
        proof {
            reveal_strlit("2");
        }
        "2"
    } else if d == 3 {
        proof {
            reveal_strlit("3");
        }
        "3"
    } else if d == 4 {
        proof {
            reveal_strlit("4");
        }
        "4"
    } else if d == 5 {
        proof {
            reveal_strlit("5");
        }
        "5"
    } else if d == 6 {
        proof {
            reveal_strlit("6");
        }
        "6"
    } else if d == 7 {
        proof {
            reveal_strlit("7");
        }
        "7"
    } else if d == 8 {
        proof {
            reveal_strlit("8");
        }
        "8"
    } else {
        proof {
            reveal_strlit("9");
        }
        "9"
    }
}

/// The decimal notation of `n` (see [`decimal`]).
fn decimal_string(n: usize) -> (s: String)
    ensures
        s@ == decimal(n as nat),
    decreases n,
{
    if n < 10 {
        let mut s = String::new();
        s.append(digit_str(n));
        s
    } else {
        let mut s = decimal_string(n / 10);
        s.append(digit_str(n % 10));
        s
    }
}

pub fn not_found_message(id: usize) -> (s: String)
    ensures
        s@ == not_found_text(id),
{
    let mut s = "Task with id: ".to_string();
    let d = decimal_string(id);
    s.append(d.as_str());
    s.append(" not found");
    s
}

pub fn parent_not_found_message(id: usize) -> (s: String)
    ensures
        s@ == parent_not_found_text(id),
{
    let mut s = "Parent task with id: ".to_string();
    let d = decimal_string(id);
    s.append(d.as_str());
    s.append(" not found");
    s
}

pub fn bad_order_message() -> (s: String)
    ensures
        s@ == bad_order_text(),
{
    "New order must contain the same subtasks".to_string()
}

pub fn bad_data_message() -> (s: String)
    ensures
        s@ == bad_data_text(),
{
    "Invalid task data: inconsistent task hierarchy".to_string()
}

} // verus!
