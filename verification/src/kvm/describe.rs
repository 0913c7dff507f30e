//! The errors of the VMM in words.

use crate::kvm::kvm_sys::{exit_reason_name, reason_text};
use crate::kvm::vmm::{BringUpError, LoadError, RunError, EXPECTED_API_VERSION};
use crate::text::{decimal, hexadecimal, push_decimal, push_hexadecimal};
use vstd::prelude::*;
use vstd::string::StringExecFns;

verus! {

impl RunError {
    /// What is said of the error. A failed entry is described by the system, from its number.
    pub open spec fn words(self) -> Option<Seq<char>> {
        match self {
            RunError::Entry(errno) => None,
            RunError::PayloadOutOfBounds => Some("kvm_run io payload out of bounds"@),
            RunError::BadDirection(d) => Some("bad io direction "@ + decimal(d as nat)),
            RunError::Unmapped(addr) => Some(
                "guest touched unmapped, undeviced guest physical address "@ + hexadecimal(
                    addr as nat,
                ),
            ),
            RunError::Unhandled(reason) => Some(
                "unhandled "@ + reason_text(reason) + " ("@ + decimal(reason as nat) + ")"@,
            ),
        }
    }

    pub fn describe(&self) -> (r: Option<String>)
        ensures
            match r {
                Some(s) => self.words() == Some(s@),
                None => self.words() is None,
            },
    {
        match self {
            RunError::Entry(_) => None,
            RunError::PayloadOutOfBounds => Some(
                String::from_str("kvm_run io payload out of bounds"),
            ),
            RunError::BadDirection(d) => {
                let mut s = String::from_str("bad io direction ");
                push_decimal(&mut s, *d as u64);
                Some(s)
            },
            RunError::Unmapped(addr) => {
                let mut s = String::from_str(
                    "guest touched unmapped, undeviced guest physical address ",
                );
                push_hexadecimal(&mut s, *addr);
                Some(s)
            },
            RunError::Unhandled(reason) => {
                let mut s = String::from_str("unhandled ");
                s.append(exit_reason_name(*reason));
                s.append(" (");
                push_decimal(&mut s, *reason as u64);
                s.append(")");
                Some(s)
            },
        }
    }
}

impl BringUpError {
    /// What is said of the error. A failed call is described by the system, from its number.
    pub open spec fn words(self) -> Option<Seq<char>> {
        match self {
            BringUpError::Os(errno) => None,
            BringUpError::ApiVersion(v) => Some(
                "unexpected KVM API version "@ + decimal(v as nat) + ", expected "@ + decimal(
                    EXPECTED_API_VERSION as nat,
                ),
            ),
            BringUpError::NoUserMemory => Some("KVM_CAP_USER_MEMORY unsupported"@),
            BringUpError::RunSize(n) => Some("implausible kvm_run size "@ + decimal(n as nat)),
        }
    }

    pub fn describe(&self) -> (r: Option<String>)
        ensures
            match r {
                Some(s) => self.words() == Some(s@),
                None => self.words() is None,
            },
    {
        match self {
            BringUpError::Os(_) => None,
            BringUpError::ApiVersion(v) => {
                let mut s = String::from_str("unexpected KVM API version ");
                push_decimal(&mut s, *v);
                s.append(", expected ");
                push_decimal(&mut s, EXPECTED_API_VERSION);
                Some(s)
            },
            BringUpError::NoUserMemory => Some(String::from_str("KVM_CAP_USER_MEMORY unsupported")),
            BringUpError::RunSize(n) => {
                let mut s = String::from_str("implausible kvm_run size ");
                push_decimal(&mut s, *n);
                Some(s)
            },
        }
    }
}

impl LoadError {
    pub open spec fn words(self) -> Seq<char> {
        "load of "@ + decimal(self.len as nat) + " bytes at "@ + hexadecimal(self.gpa as nat)
            + " exceeds "@ + decimal(self.mem_size as nat) + " bytes of guest RAM"@
    }

    pub fn describe(&self) -> (r: String)
        ensures
            r@ == self.words(),
    {
        let mut s = String::from_str("load of ");
        push_decimal(&mut s, self.len as u64);
        s.append(" bytes at ");
        push_hexadecimal(&mut s, self.gpa);
        s.append(" exceeds ");
        push_decimal(&mut s, self.mem_size as u64);
        s.append(" bytes of guest RAM");
        s
    }
}


/// An error is described with the numbers it carries: those of an error of the system are left to
/// the system to describe.
pub proof fn law_vmm_errors_are_described(
    errno: i32,
    d: u8,
    addr: u64,
    reason: u32,
    v: u64,
    load: LoadError,
)
    ensures
        RunError::Entry(errno).words() is None,
        RunError::PayloadOutOfBounds.words() == Some("kvm_run io payload out of bounds"@),
        RunError::BadDirection(d).words() == Some("bad io direction "@ + decimal(d as nat)),
        RunError::Unmapped(addr).words() == Some(
            "guest touched unmapped, undeviced guest physical address "@ + hexadecimal(addr as nat),
        ),
        RunError::Unhandled(reason).words() == Some(
            "unhandled "@ + reason_text(reason) + " ("@ + decimal(reason as nat) + ")"@,
        ),
        BringUpError::Os(errno).words() is None,
        BringUpError::ApiVersion(v).words() == Some(
            "unexpected KVM API version "@ + decimal(v as nat) + ", expected "@ + decimal(12),
        ),
        BringUpError::NoUserMemory.words() == Some("KVM_CAP_USER_MEMORY unsupported"@),
        BringUpError::RunSize(v).words() == Some(
            "implausible kvm_run size "@ + decimal(v as nat),
        ),
        load.words() == "load of "@ + decimal(load.len as nat) + " bytes at "@ + hexadecimal(
            load.gpa as nat,
        ) + " exceeds "@ + decimal(load.mem_size as nat) + " bytes of guest RAM"@,
{
}

} // verus!
