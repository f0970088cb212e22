use nodescheduler::cache::{NodeInfo, PodInfo, Resources};
use nodescheduler::framework::plugins::node_resources_balanced_allocation::{
    NodeResourcesBalancedAllocation, Usage,
};
use nodescheduler::framework::Plugin;

fn pod(name: &str) -> PodInfo {
    PodInfo { name: name.to_string(), ..Default::default() }
}

fn node(name: &str) -> NodeInfo {
    NodeInfo { name: name.to_string(), ..Default::default() }
}

fn res(milli_cpu: i64, memory: i64) -> Resources {
    Resources { milli_cpu, memory, ..Default::default() }
}

const GIB: i64 = 1024 * 1024 * 1024;

fn node_used(alloc_cpu: i64, alloc_mem: i64, used_cpu: i64, used_mem: i64) -> NodeInfo {
    let mut n = node("n");
    n.allocatable = res(alloc_cpu, alloc_mem);
    n.non_zero_requested = res(used_cpu, used_mem);
    n
}

#[test]
fn the_use_of_a_resource_counts_the_incoming_pod() {
    let plugin = NodeResourcesBalancedAllocation::default();
    let mut p = pod("cpu-heavy");
    p.requests = res(400, GIB);
    let n = node_used(1000, 4 * GIB, 500, 2 * GIB);
    assert_eq!(
        plugin.usage(&p, &n),
        vec![
            Usage { used: 900, allocatable: 1000 },
            Usage { used: 3 * GIB, allocatable: 4 * GIB },
        ]
    );
}

#[test]
fn a_pod_that_asks_for_nothing_counts_with_the_defaults() {
    let plugin = NodeResourcesBalancedAllocation::default();
    let n = node_used(1000, 4 * GIB, 0, 0);
    assert_eq!(
        plugin.usage(&pod("p"), &n),
        vec![
            Usage { used: 100, allocatable: 1000 },
            Usage { used: 200 * 1024 * 1024, allocatable: 4 * GIB },
        ]
    );
}

#[test]
fn a_resource_the_node_lacks_is_left_out_of_the_balance() {
    let n = node_used(1000, 4 * GIB, 500, 2 * GIB);

    let without_gpu = NodeResourcesBalancedAllocation::default().usage(&pod("p"), &n);
    let with_gpu = NodeResourcesBalancedAllocation {
        resources: vec!["cpu".to_string(), "memory".to_string(), "nvidia.com/gpu".to_string()],
    }
    .usage(&pod("p"), &n);

    assert_eq!(with_gpu, without_gpu);
}

#[test]
fn node_resources_balanced_allocation_it_registers_no_events_because_it_never_rejects() {
    assert!(NodeResourcesBalancedAllocation::default().events_to_register().is_empty());
}

#[test]
fn the_score_weight_is_one() {
    assert_eq!(NodeResourcesBalancedAllocation::default().weight(), 1);
}
