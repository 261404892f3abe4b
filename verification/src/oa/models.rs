//! Lifecycle of a leave request, and how a lookup of an employee by name
//! resolves.

use vstd::prelude::*;

use crate::text::{push_str, str_eq, string_from};

verus! {

/// Lifecycle of a submitted leave request.
#[derive(Debug, Clone, Copy, PartialEq, Eq, Structural)]
pub enum LeaveStatus {
    /// Submitted, awaiting the manager's approval.
    Pending,
    /// Approved; the leave balance is already deducted.
    Approved,
    /// Rejected or cancelled; the balance is restored.
    Rejected,
}

/// Text stored for a status.
pub open spec fn status_text(s: LeaveStatus) -> Seq<char> {
    match s {
        LeaveStatus::Pending => "pending"@,
        LeaveStatus::Approved => "approved"@,
        LeaveStatus::Rejected => "rejected"@,
    }
}

/// Status stored as a text; unknown texts read as `Pending`.
pub open spec fn status_named(s: Seq<char>) -> LeaveStatus {
    if s == "approved"@ {
        LeaveStatus::Approved
    } else if s == "rejected"@ {
        LeaveStatus::Rejected
    } else {
        LeaveStatus::Pending
    }
}

impl LeaveStatus {
    /// Text stored in the `leave_requests.status` column.
    pub fn as_str(&self) -> (r: &'static str)
        ensures
            r@ == status_text(*self),
    {
        match self {
            LeaveStatus::Pending => "pending",
            LeaveStatus::Approved => "approved",
            LeaveStatus::Rejected => "rejected",
        }
    }

    /// Status of a stored text; unknown texts read as `Pending`.
    pub fn from_db_str(s: &str) -> (r: Self)
        ensures
            r == status_named(s@),
    {
        if str_eq(s, "approved") {
            LeaveStatus::Approved
        } else if str_eq(s, "rejected") {
            LeaveStatus::Rejected
        } else {
            LeaveStatus::Pending
        }
    }
}

/// Law: a status read back from the text it is stored as is the same status.
pub proof fn lemma_status_roundtrip(s: LeaveStatus)
    ensures
        status_named(status_text(s)) == s,
{
    reveal_strlit("pending");
    reveal_strlit("approved");
    reveal_strlit("rejected");
    assert("pending"@[0] != "approved"@[0] && "pending"@[0] != "rejected"@[0] && "rejected"@[0] != "approved"@[0]);
}

/// How a lookup of an employee by name ends, given how many employees bear
/// that name (compared without case): one is found; none, or several, is an
/// error that the agent shows to ask for clarification.
pub open spec fn lookup_spec(name: Seq<char>, found: nat) -> Result<(), Seq<char>> {
    if found == 1 {
        Ok(())
    } else if found == 0 {
        Err("未找到员工「"@ + name + "」"@)
    } else {
        Err("员工「"@ + name + "」存在重名，请补充部门或工号以澄清"@)
    }
}

pub fn employee_lookup(name: &str, found: usize) -> (r: Result<(), String>)
    ensures
        match lookup_spec(name@, found as nat) {
            Ok(()) => r is Ok,
            Err(e) => r matches Err(x) && x@ == e,
        },
{
    if found == 1 {
        return Ok(());
    }
    let mut m: Vec<char> = Vec::new();
    if found == 0 {
        push_str(&mut m, "未找到员工「");
        push_str(&mut m, name);
        push_str(&mut m, "」");
    } else {
        push_str(&mut m, "员工「");
        push_str(&mut m, name);
        push_str(&mut m, "」存在重名，请补充部门或工号以澄清");
    }
    Err(string_from(m.as_slice()))
}

} // verus!
