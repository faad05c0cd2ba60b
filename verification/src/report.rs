//! Error reports for failed calls.
use vstd::prelude::*;

verus! {

/// The lines that report a failed call of `method_name`: the error itself,
/// then each underlying cause in turn.
///
/// `err` is the error's message and `causes` the messages of the errors it
/// was caused by, nearest first.
pub fn log_error(method_name: &str, err: &str, causes: &Vec<String>) -> (lines: Vec<String>)
    ensures
        lines@.len() == causes@.len() + 1,
        lines@[0]@ == method_name@ + "() failed: "@ + err@,
        forall|i: int|
            0 <= i < causes@.len() ==> #[trigger] lines@[i + 1]@ == "  Caused by: "@ + causes@[i]@,
{
    let mut head = String::from_str(method_name);
    head.append("() failed: ");
    head.append(err);
    let mut lines: Vec<String> = Vec::new();
    lines.push(head);
    let mut i: usize = 0;
    while i < causes.len()
        invariant
            i <= causes@.len(),
            lines@.len() == i + 1,
            lines@[0]@ == method_name@ + "() failed: "@ + err@,
            forall|j: int| 0 <= j < i ==> #[trigger] lines@[j + 1]@ == "  Caused by: "@ + causes@[j]@,
        decreases causes@.len() - i,
    {
        let mut line = String::from_str("  Caused by: ");
        line.append(causes[i].as_str());
        lines.push(line);
        i = i + 1;
    }
    lines
}

} // verus!
