use vstd::prelude::*;

verus! {

/// The closed set of legacy cgroup controllers handled by the manager.
#[derive(Clone, Copy, Debug, PartialEq, Eq, Structural)]
pub enum ControllerType {
    Cpu,
    CpuSet,
    Devices,
    HugeTlb,
    Memory,
    Pids,
    Blkio,
    NetworkPriority,
    NetworkClassifier,
}

/// Canonical host-visible name of a controller.
pub open spec fn name_of(c: ControllerType) -> Seq<char> {
    match c {
        ControllerType::Cpu => seq!['c', 'p', 'u'],
        ControllerType::CpuSet => seq!['c', 'p', 'u', 's', 'e', 't'],
        ControllerType::Devices => seq!['d', 'e', 'v', 'i', 'c', 'e', 's'],
        ControllerType::HugeTlb => seq!['h', 'u', 'g', 'e', 't', 'l', 'b'],
        ControllerType::Memory => seq!['m', 'e', 'm', 'o', 'r', 'y'],
        ControllerType::Pids => seq!['p', 'i', 'd', 's'],
        ControllerType::Blkio => seq!['b', 'l', 'k', 'i', 'o'],
        ControllerType::NetworkPriority => seq!['n', 'e', 't', '_', 'p', 'r', 'i', 'o'],
        ControllerType::NetworkClassifier => seq!['n', 'e', 't', '_', 'c', 'l', 's'],
    }
}

/// All controllers, in declaration order.
pub open spec fn all_controllers() -> Seq<ControllerType> {
    seq![
        ControllerType::Cpu,
        ControllerType::CpuSet,
        ControllerType::Devices,
        ControllerType::HugeTlb,
        ControllerType::Memory,
        ControllerType::Pids,
        ControllerType::Blkio,
        ControllerType::NetworkPriority,
        ControllerType::NetworkClassifier,
    ]
}

impl ControllerType {
    /// The controller's canonical name, as the kernel spells it.
    pub fn name(&self) -> (r: &'static str)
        ensures
            r@ == name_of(*self),
    {
        match self {
            ControllerType::Cpu => {
                let s = "cpu";
                proof { reveal_strlit("cpu"); }
                s
            },
            ControllerType::CpuSet => {
                let s = "cpuset";
                proof { reveal_strlit("cpuset"); }
                s
            },
            ControllerType::Devices => {
                let s = "devices";
                proof { reveal_strlit("devices"); }
                s
            },
            ControllerType::HugeTlb => {
                let s = "hugetlb";
                proof { reveal_strlit("hugetlb"); }
                s
            },
            ControllerType::Memory => {
                let s = "memory";
                proof { reveal_strlit("memory"); }
                s
            },
            ControllerType::Pids => {
                let s = "pids";
                proof { reveal_strlit("pids"); }
                s
            },
            ControllerType::Blkio => {
                let s = "blkio";
                proof { reveal_strlit("blkio"); }
                s
            },
            ControllerType::NetworkPriority => {
                let s = "net_prio";
                proof { reveal_strlit("net_prio"); }
                s
            },
            ControllerType::NetworkClassifier => {
                let s = "net_cls";
                proof { reveal_strlit("net_cls"); }
                s
            },
        }
    }
}

/// Every controller, in declaration order; this order drives application
/// and removal.
pub fn controllers() -> (r: Vec<ControllerType>)
    ensures
        r@ == all_controllers(),
{
    let r = vec![
        ControllerType::Cpu,
        ControllerType::CpuSet,
        ControllerType::Devices,
        ControllerType::HugeTlb,
        ControllerType::Memory,
        ControllerType::Pids,
        ControllerType::Blkio,
        ControllerType::NetworkPriority,
        ControllerType::NetworkClassifier,
    ];
    assert(r@ =~= all_controllers());
    r
}

} // verus!
