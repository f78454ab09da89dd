use sefirot::kernel_attrs::{
    atomic_name, build_rewrite, check_kernel_return, display_kernel_init, init_fn_name, parse_attrs,
    run_fn_name, str_eq, init_needs_device, unique_id_counter, FieldsKind, ItemKind, UniqueIdError, BuildOptions, BuildRewrite, InitParam, KernelError, MetaItem,
};

fn item(path: &[&str], paren: Option<&str>, value: Option<&str>) -> MetaItem {
    MetaItem {
        path: path.iter().map(|s| s.to_string()).collect(),
        paren: paren.map(String::from),
        value: value.map(String::from),
    }
}

#[test]
fn build_options_accept_known_keys_only() {
    let mut o = BuildOptions::new();
    assert!(o.register(String::from("async_compile"), String::from("false")).is_ok());
    assert_eq!(
        o.register(String::from("fast"), String::from("true")),
        Err(String::from("unsupported build option: fast"))
    );
    assert!(o.register(String::from("async_compile"), String::from("true")).is_ok());
    assert_eq!(o.0.last().unwrap().1, "true");
    // A key set again keeps one entry, with the new value.
    assert_eq!(o.0.len(), 1);
    assert!(o.register(String::from("name"), String::from("\"k\"")).is_ok());
    assert!(o.register(String::from("async_compile"), String::from("false")).is_ok());
    assert_eq!(o.0, vec![
        (String::from("async_compile"), String::from("false")),
        (String::from("name"), String::from("\"k\"")),
    ]);
}

#[test]
fn attributes_are_read_in_order() {
    let items = vec![
        item(&["init"], Some("pub"), None),
        item(&["run"], Some("pub(crate)"), Some("go")),
        item(&["enable_fast_math"], None, Some("true")),
    ];
    let a = parse_attrs(&items).unwrap();
    assert_eq!(a.init_vis, "pub");
    assert_eq!(a.init_name, None);
    let run = a.run.unwrap();
    assert_eq!(run.vis, "pub(crate)");
    assert_eq!(run.name, Some(String::from("go")));
    assert_eq!(a.build_options.0.len(), 1);

    let named = parse_attrs(&vec![item(&["init"], None, Some("setup"))]).unwrap();
    assert_eq!(named.init_vis, "");
    assert_eq!(named.init_name, Some(String::from("setup")));
    assert!(named.run.is_none());
}

#[test]
fn attribute_errors() {
    let e = parse_attrs(&vec![item(&["a", "b"], None, Some("1"))]);
    assert_eq!(e.err(), Some(String::from("expected identifier")));
    let e = parse_attrs(&vec![item(&["name"], None, None)]);
    assert_eq!(e.err(), Some(String::from("expected `=`")));
    let e = parse_attrs(&vec![item(&["init"], None, None), item(&["colour"], None, Some("1"))]);
    assert_eq!(e.err(), Some(String::from("unsupported build option: colour")));
}

#[test]
fn function_names() {
    assert_eq!(init_fn_name("step", None), "init_step");
    assert_eq!(init_fn_name("step", Some(String::from("setup"))), "setup");
    assert_eq!(run_fn_name("compute_offset_kernel", None), "compute_offset");
    assert_eq!(run_fn_name("compute", None), "run_compute");
    assert_eq!(run_fn_name("_kernel", None), "");
    assert_eq!(run_fn_name("x", Some(String::from("go"))), "go");
}

#[test]
fn kernel_return_types() {
    assert_eq!(check_kernel_return("Kernel", 1), Ok(false));
    assert_eq!(check_kernel_return("Kernel", 2), Ok(true));
    assert_eq!(check_kernel_return("Kernel", 3), Err(KernelError::NotKernel));
    assert_eq!(check_kernel_return("Vec", 1), Err(KernelError::NotKernel));
}

#[test]
fn unique_id_counters() {
    assert_eq!(atomic_name("u8"), Some(String::from("AtomicU8")));
    assert_eq!(atomic_name("u64"), Some(String::from("AtomicU64")));
    assert_eq!(atomic_name("usize"), Some(String::from("AtomicUsize")));
    assert_eq!(atomic_name("i32"), None);
}

#[test]
fn display_kernel_attribute() {
    assert_eq!(display_kernel_init(""), Some(true));
    assert_eq!(display_kernel_init("noinit"), Some(false));
    assert_eq!(display_kernel_init("other"), None);
    assert!(str_eq("abc", "abc"));
    assert!(!str_eq("abc", "abd"));
}

fn path(segments: &[&str]) -> Vec<String> {
    segments.iter().map(|s| s.to_string()).collect()
}

#[test]
fn build_call_rewrites() {
    // `Kernel::build(&domain, &|index| ..)` gets the options and its type arguments.
    assert_eq!(
        build_rewrite(&path(&["Kernel", "build"]), false, 2, false),
        Ok(BuildRewrite::WithOptions { add_type_args: true, closure: 1 })
    );
    assert_eq!(
        build_rewrite(&path(&["Kernel", "build"]), true, 2, true),
        Ok(BuildRewrite::WithOptions { add_type_args: false, closure: 1 })
    );
    // `build_named` without options is kept; its closure is the last argument.
    assert_eq!(
        build_rewrite(&path(&["Kernel", "build_named"]), false, 3, false),
        Ok(BuildRewrite::Named { add_type_args: true, closure: 2 })
    );
    assert_eq!(
        build_rewrite(&path(&["Kernel", "build_named"]), false, 3, true),
        Err(KernelError::BadBuildCall)
    );
    assert_eq!(
        build_rewrite(&path(&["Kernel", "build_with_options"]), false, 3, false),
        Err(KernelError::BadBuildCall)
    );
    assert_eq!(build_rewrite(&path(&["Kernel", "build"]), false, 0, false), Err(KernelError::BadBuildCall));
    assert_eq!(build_rewrite(&path(&["Kernel", "build"]), false, 3, false), Err(KernelError::BadBuildCall));
    // Anything else is left alone.
    assert_eq!(build_rewrite(&path(&["Kernel", "new"]), false, 2, false), Ok(BuildRewrite::Untouched));
    assert_eq!(build_rewrite(&path(&["Other", "build"]), false, 2, false), Ok(BuildRewrite::Untouched));
    assert_eq!(build_rewrite(&path(&["build"]), false, 2, false), Ok(BuildRewrite::Untouched));
}

#[test]
fn display_kernel_init_takes_device_unless_named() {
    let named = |n: &str| InitParam::Named(n.to_string());
    assert_eq!(init_needs_device(&vec![]), Ok(true));
    assert_eq!(init_needs_device(&vec![named("grid"), InitParam::Pattern]), Ok(true));
    assert_eq!(init_needs_device(&vec![named("grid"), named("device")]), Ok(false));
    assert_eq!(init_needs_device(&vec![named("device"), InitParam::Receiver]), Ok(false));
    assert_eq!(init_needs_device(&vec![InitParam::Receiver, named("device")]), Err(KernelError::SelfParam));
    assert_eq!(init_needs_device(&vec![named("x"), InitParam::Receiver]), Err(KernelError::SelfParam));
}

// The offset kernel of a grid: `#[kernel(init(pub))]` on
// `pub fn compute_offset_kernel(grid: Res<Grid>) -> Kernel<fn()>`, whose body
// ends in `Kernel::build(&grid.domain, &|index| { .. })`.
#[test]
fn lib_test_kernel() {
    let attrs = parse_attrs(&vec![item(&["init"], Some("pub"), None)]).unwrap();
    assert_eq!(attrs.init_vis, "pub");
    assert!(attrs.run.is_none());
    assert_eq!(attrs.build_options.0.len(), 0);
    assert_eq!(init_fn_name("compute_offset_kernel", attrs.init_name), "init_compute_offset_kernel");
    assert_eq!(check_kernel_return("Kernel", 1), Ok(false));
    assert_eq!(
        build_rewrite(&path(&["Kernel", "build"]), false, 2, !attrs.build_options.0.is_empty()),
        Ok(BuildRewrite::WithOptions { add_type_args: true, closure: 1 })
    );
    assert_eq!(run_fn_name("compute_offset_kernel", None), "compute_offset");
}

#[test]
fn unique_id_needs_one_unsigned_field() {
    let one = |t: &str| vec![Some(t.to_string())];
    assert_eq!(
        unique_id_counter(ItemKind::Struct, FieldsKind::Named, &one("u64")),
        Ok(String::from("AtomicU64"))
    );
    assert_eq!(
        unique_id_counter(ItemKind::Struct, FieldsKind::Unnamed, &one("usize")),
        Ok(String::from("AtomicUsize"))
    );
    assert_eq!(unique_id_counter(ItemKind::Enum, FieldsKind::Named, &one("u64")), Err(UniqueIdError::NotStruct));
    assert_eq!(unique_id_counter(ItemKind::Union, FieldsKind::Named, &one("u64")), Err(UniqueIdError::NotStruct));
    assert_eq!(unique_id_counter(ItemKind::Struct, FieldsKind::Unit, &vec![]), Err(UniqueIdError::UnitStruct));
    assert_eq!(unique_id_counter(ItemKind::Struct, FieldsKind::Named, &vec![]), Err(UniqueIdError::FieldCount));
    let two = vec![Some(String::from("u8")), Some(String::from("u8"))];
    assert_eq!(unique_id_counter(ItemKind::Struct, FieldsKind::Named, &two), Err(UniqueIdError::FieldCount));
    assert_eq!(unique_id_counter(ItemKind::Struct, FieldsKind::Named, &one("i32")), Err(UniqueIdError::FieldType));
    assert_eq!(unique_id_counter(ItemKind::Struct, FieldsKind::Named, &vec![None]), Err(UniqueIdError::FieldType));
}
