use sefirot::domain::{DynamicDomain, KernelCall, KernelDispatch, SizedDomain, StaticDomain};
use sefirot::field::array::{Vec2, Vec3};
use sefirot::graph::config::NodeConfigs;

#[test]
fn static_domains() {
    let d0 = StaticDomain::<0>::new();
    assert_eq!(d0.dispatch_size(), [1, 1, 1]);
    assert!(d0.contains(()));
    let d1 = StaticDomain::<1>::new(16);
    assert_eq!(d1.len(), 16);
    assert_eq!(d1.width(), 16);
    assert_eq!(d1.dispatch_size(), [16, 1, 1]);
    assert!(d1.contains(15));
    assert!(!d1.contains(16));
    let d2 = StaticDomain::<2>::new(4, 3);
    assert_eq!((d2.width(), d2.height()), (4, 3));
    assert_eq!(d2.dispatch_size(), [4, 3, 1]);
    assert!(d2.contains(Vec2 { x: 3, y: 2 }));
    assert!(!d2.contains(Vec2 { x: 3, y: 3 }));
    let d3 = StaticDomain::<3>::new(2, 3, 4);
    assert_eq!((d3.width(), d3.height(), d3.depth()), (2, 3, 4));
    assert_eq!(d3.dispatch_size(), [2, 3, 4]);
    assert!(d3.contains(Vec3 { x: 1, y: 2, z: 3 }));
    assert!(!d3.contains(Vec3 { x: 2, y: 0, z: 0 }));
}

#[test]
fn dynamic_and_sized_domains() {
    let mut d = DynamicDomain::new(5);
    assert_eq!(d.dispatch_size(), [5, 1, 1]);
    d.len = 9;
    assert_eq!(d.dispatch_size(), [9, 1, 1]);
    assert_eq!(SizedDomain.dispatch_size([3, 2, 1]), [3, 2, 1]);
}

#[test]
fn kernel_dispatch_names_its_node() {
    let named = KernelDispatch { kernel: 3, debug_name: Some(String::from("step")) };
    assert_eq!(named.kernel_name(), Some("step"));
    let call = named.dispatch_raw([8, 1, 1]);
    assert_eq!(call, KernelCall { kernel: 3, dispatch_size: [8, 1, 1], passthrough: () });
    match named.dispatch::<u32>([8, 1, 1]) {
        NodeConfigs::Single { config, constraints } => {
            assert_eq!(config.debug_name, Some(String::from("step")));
            assert_eq!(config.command, Some(call));
            assert!(constraints.is_empty());
        },
        NodeConfigs::Multiple { .. } => panic!("a dispatch is a single node"),
    }
    let anonymous = KernelDispatch { kernel: 4, debug_name: None };
    assert_eq!(anonymous.kernel_name(), None);
    match anonymous.dispatch_with::<u8, u32>([1, 1, 1], 6) {
        NodeConfigs::Single { config, .. } => {
            assert_eq!(config.debug_name, None);
            assert_eq!(config.command.unwrap().passthrough, 6);
        },
        NodeConfigs::Multiple { .. } => panic!("a dispatch is a single node"),
    }
}
