use sefirot::emanation::{Auto, Emanation, EmanationHandle};
use sefirot::field::array::{ArrayIndex, EField};
use sefirot::field::access::Static;
use sefirot::element::Context;
use sefirot::field::partition::{ArrayPartition, PartitionFields, PartitionIndex, PartitionMappings};
use sefirot::field::Field;
use sefirot::graph::ComputeGraph;
use sefirot::field::FieldRegistry;

type Items = Auto<u32>;
type Parts = Auto<u64>;

fn setup(
    len: u32,
    parts: u32,
    max: Option<u32>,
) -> (FieldRegistry, Emanation<Items>, Emanation<Parts>, ArrayPartition<Items, Parts, u32>) {
    let mut registry = FieldRegistry::new();
    let mut e: Emanation<Items> = Emanation::new(EmanationHandle { id: 0 });
    let mut pe: Emanation<Parts> = Emanation::new(EmanationHandle { id: 1 });
    let index: ArrayIndex<Items> = e.create_index(&mut registry, len);
    let pindex: ArrayIndex<Parts> = pe.create_index(&mut registry, parts);
    let partition: EField<u32, Items> = e.create_named_field(&mut registry, "cell");
    let const_partition: Field<Static<u32>, Items> = e.create_named_field(&mut registry, "cell-const");
    let partition_map: EField<u32, Items> = e.create_named_field(&mut registry, "cell-map");
    let partition_map = partition_map.bind(&mut registry, 41);
    let fields = PartitionFields { const_partition, partition, partition_map };
    let p = e.partition(&mut pe, &mut registry, index, pindex, fields, max);
    (registry, e, pe, p)
}

#[test]
fn partition_creates_named_fields() {
    let (registry, _e, _pe, p) = setup(6, 3, None);
    assert_eq!(registry.get(p.partition_ref().id).unwrap().name, "cell-ref");
    assert_eq!(registry.get(p.partition_lists.id).unwrap().name, "cell-lists");
    assert_eq!(registry.get(p.partition_size().id).unwrap().name, "cell-list-size");
    assert_eq!(p.max_partition_size, 6);
    assert_eq!(p.partition_size_host(), &vec![0, 0, 0]);
    assert_eq!(p.lists.len(), 18);
}

#[test]
fn partition_update_counts_and_lists() {
    let (_registry, _e, _pe, mut p) = setup(6, 3, Some(4));
    let null = <u32 as PartitionIndex>::null();
    assert_eq!(null, u32::MAX);
    let parts = vec![2, 0, 2, null, 2, 0];
    p.update(&parts);
    assert_eq!(p.partition_size_host(), &vec![2, 0, 3]);
    for (e, &part) in parts.iter().enumerate() {
        if part == null {
            assert_eq!(p.refs[e], 0);
            continue;
        }
        let r = p.refs[e];
        assert!(r < p.partition_size_host()[part as usize]);
        assert_eq!(p.lists[(part * 4 + r) as usize], e as u32);
    }
    let mut in_two: Vec<u32> = (0..3).map(|j| p.lists[(2 * 4 + j) as usize]).collect();
    in_two.sort();
    assert_eq!(in_two, vec![0, 2, 4]);
    // Updating again from other partitions counts anew.
    p.update(&vec![1, 1, null, null, null, null]);
    assert_eq!(p.partition_size_host(), &vec![0, 2, 0]);
}

#[test]
fn partition_domains_dispatch_over_one_partition() {
    let (_registry, _e, _pe, mut p) = setup(4, 2, None);
    p.update(&vec![1, 1, 1, 0]);
    let d = p.select(1);
    assert_eq!(d.partition_index, 1);
    assert_eq!(d.dispatch_size(&p), [3, 1, 1]);
    let mut dynamic = p.select_dyn();
    assert_eq!(dynamic.partition_index, u32::MAX);
    dynamic.before_dispatch(0);
    assert_eq!(dynamic.partition_index, 0);
    assert_eq!(dynamic.dispatch_size(&p, 0), [1, 1, 1]);
    assert_eq!(dynamic.partition_lists.id, p.partition_lists.id);
}

#[test]
fn partition_domain_binds_its_fields_for_an_element() {
    let (registry, _e, _pe, p) = setup(4, 2, None);
    let d = p.select(1);
    assert_eq!(d.index.field.id, p.index.field.id);
    assert_eq!(d.const_partition.id, p.const_partition.id);
    assert_eq!(d.partition.id, p.partition.id);
    assert_eq!(d.partition_ref.id, p.partition_ref.id);
    assert_eq!(d.partition_map.id, p.partition_map.id);
    let mut ctx = Context::new();
    let mappings = PartitionMappings { partition: 7, partition_ref: 8, index: 9 };
    d.bind_fields(&mut ctx, &mappings);
    ctx.enter();
    assert_eq!(ctx.on_mapping_opt(p.const_partition.id, &registry), Some(7));
    assert_eq!(ctx.on_mapping_opt(p.partition.id, &registry), Some(7));
    assert_eq!(ctx.on_mapping_opt(p.partition_ref.id, &registry), Some(8));
    assert_eq!(ctx.on_mapping_opt(p.index.field.id, &registry), Some(9));
    // The partition map keeps the mapping bound to it in the registry.
    assert_eq!(ctx.on_mapping_opt(p.partition_map.id, &registry), Some(41));
}

#[test]
fn partition_keeps_the_fields_it_is_given() {
    let (registry, _e, _pe, p) = setup(6, 3, None);
    assert_eq!(registry.get(p.const_partition.id).unwrap().binding, None);
    assert_eq!(registry.get(p.partition_map.id).unwrap().binding, Some(41));
    assert_eq!(registry.get(p.partition.id).unwrap().name, "cell");
}

#[test]
fn partition_update_graph_runs_steps_in_order() {
    let (_registry, _e, _pe, p) = setup(6, 3, None);
    let mut g: ComputeGraph<u32, u32> = ComputeGraph::new();
    g.add(p.update_graph(10, 20, 30)).unwrap();
    assert_eq!(g.execute().commands, vec![10, 20, 30]);
    let mut g: ComputeGraph<u32, u32> = ComputeGraph::new();
    g.add(p.update_graph(10, 20, 30)).unwrap();
    // The container (the first container) holds the three commands.
    let hier = g.hierarchy();
    for c in 0..3usize {
        assert!(hier.contains_edge((0, 0), (1, c)));
    }
}
