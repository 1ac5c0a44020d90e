use lib::host_paths::{check_host_index_access, dynamic_host_path_part, DynamicHostPathPart, HostIndexAccessError, HostIndexAccessKind};
use lib::options::{CompilerOptions, FunctionId, HostIndexCapabilityInfo, HostMethodId};

fn capability(readable: bool, writable: bool, key: Option<&str>, value: Option<&str>) -> HostIndexCapabilityInfo {
    HostIndexCapabilityInfo {
        readable,
        writable,
        addable: false,
        removable: false,
        key_type: key.map(|k| k.to_string()),
        value_type: value.map(|v| v.to_string()),
    }
}

#[test]
fn capability_reads_back_what_was_declared() {
    let options = CompilerOptions::new()
        .with_host_index_capability("Grid".to_string(), capability(true, false, Some("i64"), Some("Cell")))
        .with_host_index_capability("Bag".to_string(), capability(true, true, None, None));
    assert_eq!(options.host_index_capability("Grid"), Some(&capability(true, false, Some("i64"), Some("Cell"))));
    assert_eq!(options.host_index_capability("Bag"), Some(&capability(true, true, None, None)));
    assert_eq!(options.host_index_capability("Other"), None);
}

#[test]
fn a_later_capability_replaces_an_earlier_one() {
    let options = CompilerOptions::new()
        .with_host_index_capability("Grid".to_string(), capability(true, false, None, None))
        .with_host_index_capability("Grid".to_string(), capability(false, true, Some("String"), None));
    assert_eq!(options.host_index_capability("Grid"), Some(&capability(false, true, Some("String"), None)));
}

#[test]
fn option_sets_answer_membership() {
    let options = CompilerOptions::default()
        .with_native_module_root("std".to_string())
        .with_opaque_external_type_hint("Handle".to_string())
        .with_opaque_external_type_hint("Handle".to_string())
        .with_scoped_borrow_function(FunctionId(7))
        .with_scoped_borrow_method(HostMethodId(3));
    assert!(options.allows_opaque_external_type_hint("Handle"));
    assert!(!options.allows_opaque_external_type_hint("Other"));
    assert!(options.is_scoped_borrow_function(FunctionId(7)));
    assert!(!options.is_scoped_borrow_function(FunctionId(8)));
    assert!(options.is_scoped_borrow_method(HostMethodId(3)));
    assert!(!options.is_scoped_borrow_method(HostMethodId(4)));
}

#[test]
fn access_kinds_read_their_flags_and_labels() {
    let cap = HostIndexCapabilityInfo { readable: true, writable: false, addable: true, removable: false, key_type: None, value_type: None };
    assert!(HostIndexAccessKind::Read.allowed_by(&cap));
    assert!(!HostIndexAccessKind::Write.allowed_by(&cap));
    assert!(HostIndexAccessKind::Mutate.allowed_by(&cap));
    assert!(!HostIndexAccessKind::Remove.allowed_by(&cap));
    assert_eq!(HostIndexAccessKind::Write.denied_code(), "analysis::host_index_not_writable");
    assert_eq!(HostIndexAccessKind::Mutate.access_name(), "mutations");
    assert_eq!(HostIndexAccessKind::Remove.capability_label(), "host index capability is not removable");
    assert_eq!(HostIndexAccessKind::Read.enable_label(), "enable readable host index access for this type");
}

#[test]
fn i64_keys_index_by_position() {
    assert_eq!(dynamic_host_path_part("i64"), DynamicHostPathPart::Index);
    assert_eq!(dynamic_host_path_part("String"), DynamicHostPathPart::Key);
    assert_eq!(dynamic_host_path_part("I64"), DynamicHostPathPart::Key);
}

#[test]
fn host_index_access_checks() {
    let options = CompilerOptions::new()
        .with_host_index_capability("Grid".to_string(), capability(true, false, Some("i64"), None));
    assert_eq!(check_host_index_access(&options, None, HostIndexAccessKind::Write, None), Ok(()));
    assert_eq!(
        check_host_index_access(&options, Some("Other"), HostIndexAccessKind::Read, None),
        Err(HostIndexAccessError::NotSupported { receiver_type: "Other".to_string() })
    );
    assert_eq!(
        check_host_index_access(&options, Some("Grid"), HostIndexAccessKind::Write, None),
        Err(HostIndexAccessError::NotAllowed { receiver_type: "Grid".to_string(), kind: HostIndexAccessKind::Write })
    );
    assert_eq!(
        check_host_index_access(&options, Some("Grid"), HostIndexAccessKind::Read, Some(("String", "String"))),
        Err(HostIndexAccessError::KeyMismatch {
            receiver_type: "Grid".to_string(),
            expected: "i64".to_string(),
            actual: "String".to_string(),
        })
    );
    assert_eq!(check_host_index_access(&options, Some("Grid"), HostIndexAccessKind::Read, Some(("int", "i64"))), Ok(()));
    assert_eq!(check_host_index_access(&options, Some("Grid"), HostIndexAccessKind::Read, None), Ok(()));
}
