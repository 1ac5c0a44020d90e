use vstd::prelude::*;

use crate::options::{CapabilityModel, CompilerOptions, HostIndexCapabilityInfo, OptionsModel};
use crate::text::str_eq;

verus! {

/// How a dynamic host path segment addresses its container.
#[derive(Clone, Copy, Debug, PartialEq, Eq, Structural)]
pub enum DynamicHostPathPart {
    Index,
    Key,
}

/// What an index expression on a host value does.
#[derive(Clone, Copy, Debug, PartialEq, Eq, Structural)]
pub enum HostIndexAccessKind {
    Read,
    Write,
    Mutate,
    Remove,
}

/// Whether a capability allows an access of the given kind.
pub open spec fn allowed_by_spec(kind: HostIndexAccessKind, capability: CapabilityModel) -> bool {
    match kind {
        HostIndexAccessKind::Read => capability.readable,
        HostIndexAccessKind::Write => capability.writable,
        HostIndexAccessKind::Mutate => capability.addable,
        HostIndexAccessKind::Remove => capability.removable,
    }
}

pub open spec fn denied_code_spec(kind: HostIndexAccessKind) -> Seq<char> {
    match kind {
        HostIndexAccessKind::Read => "analysis::host_index_not_readable"@,
        HostIndexAccessKind::Write => "analysis::host_index_not_writable"@,
        HostIndexAccessKind::Mutate => "analysis::host_index_not_mutable"@,
        HostIndexAccessKind::Remove => "analysis::host_index_not_removable"@,
    }
}

pub open spec fn access_name_spec(kind: HostIndexAccessKind) -> Seq<char> {
    match kind {
        HostIndexAccessKind::Read => "reads"@,
        HostIndexAccessKind::Write => "writes"@,
        HostIndexAccessKind::Mutate => "mutations"@,
        HostIndexAccessKind::Remove => "removals"@,
    }
}

pub open spec fn capability_label_spec(kind: HostIndexAccessKind) -> Seq<char> {
    match kind {
        HostIndexAccessKind::Read => "host index capability is not readable"@,
        HostIndexAccessKind::Write => "host index capability is not writable"@,
        HostIndexAccessKind::Mutate => "host index capability is not addable"@,
        HostIndexAccessKind::Remove => "host index capability is not removable"@,
    }
}

pub open spec fn enable_label_spec(kind: HostIndexAccessKind) -> Seq<char> {
    match kind {
        HostIndexAccessKind::Read => "enable readable host index access for this type"@,
        HostIndexAccessKind::Write => "enable writable host index access for this type"@,
        HostIndexAccessKind::Mutate => "enable addable host index access for this type"@,
        HostIndexAccessKind::Remove => "enable removable host index access for this type"@,
    }
}

impl HostIndexAccessKind {
    /// Whether `capability` allows this kind of access.
    pub fn allowed_by(self, capability: &HostIndexCapabilityInfo) -> (r: bool)
        ensures
            r == allowed_by_spec(self, capability@),
    {
        match self {
            HostIndexAccessKind::Read => capability.readable,
            HostIndexAccessKind::Write => capability.writable,
            HostIndexAccessKind::Mutate => capability.addable,
            HostIndexAccessKind::Remove => capability.removable,
        }
    }

    /// The diagnostic code of a denied access.
    pub fn denied_code(self) -> (r: &'static str)
        ensures
            r@ == denied_code_spec(self),
    {
        match self {
            HostIndexAccessKind::Read => "analysis::host_index_not_readable",
            HostIndexAccessKind::Write => "analysis::host_index_not_writable",
            HostIndexAccessKind::Mutate => "analysis::host_index_not_mutable",
            HostIndexAccessKind::Remove => "analysis::host_index_not_removable",
        }
    }

    /// The plural noun for this kind of access.
    pub fn access_name(self) -> (r: &'static str)
        ensures
            r@ == access_name_spec(self),
    {
        match self {
            HostIndexAccessKind::Read => "reads",
            HostIndexAccessKind::Write => "writes",
            HostIndexAccessKind::Mutate => "mutations",
            HostIndexAccessKind::Remove => "removals",
        }
    }

    /// The label naming the missing capability.
    pub fn capability_label(self) -> (r: &'static str)
        ensures
            r@ == capability_label_spec(self),
    {
        match self {
            HostIndexAccessKind::Read => "host index capability is not readable",
            HostIndexAccessKind::Write => "host index capability is not writable",
            HostIndexAccessKind::Mutate => "host index capability is not addable",
            HostIndexAccessKind::Remove => "host index capability is not removable",
        }
    }

    /// The label suggesting the capability to enable.
    pub fn enable_label(self) -> (r: &'static str)
        ensures
            r@ == enable_label_spec(self),
    {
        match self {
            HostIndexAccessKind::Read => "enable readable host index access for this type",
            HostIndexAccessKind::Write => "enable writable host index access for this type",
            HostIndexAccessKind::Mutate => "enable addable host index access for this type",
            HostIndexAccessKind::Remove => "enable removable host index access for this type",
        }
    }
}

pub open spec fn dynamic_part_spec(key_type: Seq<char>) -> DynamicHostPathPart {
    if key_type == "i64"@ {
        DynamicHostPathPart::Index
    } else {
        DynamicHostPathPart::Key
    }
}

/// An `i64` key addresses by position; any other key type by key.
pub fn dynamic_host_path_part(key_type: &str) -> (r: DynamicHostPathPart)
    ensures
        r == dynamic_part_spec(key_type@),
{
    if str_eq(key_type, "i64") {
        DynamicHostPathPart::Index
    } else {
        DynamicHostPathPart::Key
    }
}

/// Why an index access on a host value is refused.
#[derive(Debug, PartialEq, Eq)]
pub enum HostIndexAccessError {
    /// No index capability is registered for the receiver's type.
    NotSupported { receiver_type: String },
    /// The capability does not allow this kind of access.
    NotAllowed { receiver_type: String, kind: HostIndexAccessKind },
    /// The index expression's type is not the declared key type.
    KeyMismatch { receiver_type: String, expected: String, actual: String },
}

/// The outcome of checking an index access, over models.
pub enum AccessCheckModel {
    Allowed,
    NotSupported(Seq<char>),
    NotAllowed(Seq<char>, HostIndexAccessKind),
    KeyMismatch(Seq<char>, Seq<char>, Seq<char>),
}

pub open spec fn access_error_model(e: HostIndexAccessError) -> AccessCheckModel {
    match e {
        HostIndexAccessError::NotSupported { receiver_type } => AccessCheckModel::NotSupported(receiver_type@),
        HostIndexAccessError::NotAllowed { receiver_type, kind } => AccessCheckModel::NotAllowed(
            receiver_type@,
            kind,
        ),
        HostIndexAccessError::KeyMismatch { receiver_type, expected, actual } => AccessCheckModel::KeyMismatch(
            receiver_type@,
            expected@,
            actual@,
        ),
    }
}

/// The check of an index access on a value of `receiver_type` whose index
/// expression has the type named `index_type` (its source name and its
/// standard name), when known.
pub open spec fn host_index_access_model(
    options: OptionsModel,
    receiver_type: Option<Seq<char>>,
    kind: HostIndexAccessKind,
    index_type: Option<(Seq<char>, Seq<char>)>,
) -> AccessCheckModel {
    match receiver_type {
        None => AccessCheckModel::Allowed,
        Some(receiver) => if !options.host_index_capabilities.dom().contains(receiver) {
            AccessCheckModel::NotSupported(receiver)
        } else {
            let capability = options.host_index_capabilities[receiver];
            if !allowed_by_spec(kind, capability) {
                AccessCheckModel::NotAllowed(receiver, kind)
            } else {
                match (capability.key_type, index_type) {
                    (Some(expected), Some((source, standard))) => if source != expected && standard
                        != expected {
                        AccessCheckModel::KeyMismatch(receiver, expected, source)
                    } else {
                        AccessCheckModel::Allowed
                    },
                    _ => AccessCheckModel::Allowed,
                }
            }
        },
    }
}

/// Checks an index access on a host value: the receiver's type must have an
/// index capability, the capability must allow the access, and an index of
/// known type must have the declared key type (by its source or standard
/// name). An access on a receiver of unknown type is let through.
pub fn check_host_index_access(
    options: &CompilerOptions,
    receiver_type: Option<&str>,
    kind: HostIndexAccessKind,
    index_type: Option<(&str, &str)>,
) -> (r: Result<(), HostIndexAccessError>)
    ensures
        match r {
            Ok(()) => host_index_access_model(
                options@,
                match receiver_type {
                    Some(t) => Some(t@),
                    None => None,
                },
                kind,
                match index_type {
                    Some((a, b)) => Some((a@, b@)),
                    None => None,
                },
            ) is Allowed,
            Err(e) => host_index_access_model(
                options@,
                match receiver_type {
                    Some(t) => Some(t@),
                    None => None,
                },
                kind,
                match index_type {
                    Some((a, b)) => Some((a@, b@)),
                    None => None,
                },
            ) == access_error_model(e),
        },
{
    let receiver = match receiver_type {
        Some(t) => t,
        None => return Ok(()),
    };
    let capability = match options.host_index_capability(receiver) {
        Some(c) => c,
        None => return Err(HostIndexAccessError::NotSupported { receiver_type: receiver.to_owned() }),
    };
    if !kind.allowed_by(capability) {
        return Err(HostIndexAccessError::NotAllowed { receiver_type: receiver.to_owned(), kind });
    }
    match (&capability.key_type, index_type) {
        (Some(expected), Some((source, standard))) => {
            if !str_eq(source, expected.as_str()) && !str_eq(standard, expected.as_str()) {
                Err(
                    HostIndexAccessError::KeyMismatch {
                        receiver_type: receiver.to_owned(),
                        expected: expected.clone(),
                        actual: source.to_owned(),
                    },
                )
            } else {
                Ok(())
            }
        },
        _ => Ok(()),
    }
}

} // verus!
