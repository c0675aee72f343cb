use clr_profiler::metadata::{
    resolve_method, resolved_from, MetadataImportTrait, MethodProps, TypeDefProps,
};

struct Table;

impl MetadataImportTrait for Table {
    fn get_method_props(&self, mb: u32) -> Result<MethodProps, i32> {
        match mb {
            0x0600_0001 => Ok(MethodProps { name: "Validate".to_string(), class_token: 0x0200_0002 }),
            0x0600_0002 => Ok(MethodProps { name: "Orphan".to_string(), class_token: 0x0200_0009 }),
            _ => Err(-1),
        }
    }

    fn get_type_def_props(&self, td: u32) -> Result<TypeDefProps, i32> {
        match td {
            0x0200_0002 => Ok(TypeDefProps { name: "Checks".to_string() }),
            _ => Err(-2),
        }
    }
}

#[test]
fn method_resolves_to_type_and_name() {
    let rm = resolve_method(&Table, 3, 0x0600_0001).unwrap();
    assert_eq!(rm.module_id, 3);
    assert_eq!(rm.token, 0x0600_0001);
    assert_eq!(rm.qualified_name(), "Checks.Validate");
}

#[test]
fn lookup_failures_are_passed_on() {
    assert_eq!(resolve_method(&Table, 3, 0x0600_0003).unwrap_err(), -1);
    assert_eq!(resolve_method(&Table, 3, 0x0600_0002).unwrap_err(), -2);
}

#[test]
fn resolved_method_takes_each_name_from_its_lookup() {
    let rm = resolved_from(
        9,
        0x0600_0004,
        MethodProps { name: "Run".to_string(), class_token: 0x0200_0001 },
        TypeDefProps { name: "Worker".to_string() },
    );
    assert_eq!((rm.module_id, rm.token), (9, 0x0600_0004));
    assert_eq!(rm.method_name, "Run");
    assert_eq!(rm.class_name, "Worker");
}
