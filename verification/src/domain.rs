//! Domains: the spaces that kernels run over, the dispatch sizes they are run
//! with and the indices they contain, and the dispatch of a built kernel as a
//! node of the compute graph.
use vstd::prelude::*;

use crate::field::array::{Vec2, Vec3};
use crate::graph::config::NodeConfigs;

verus! {

/// A domain of fixed size in `N` dimensions.
#[derive(Debug, Clone, Copy, PartialEq, Eq, Hash)]
pub struct StaticDomain<const N: usize>(pub [u32; N]);

impl StaticDomain<0> {
    /// The domain of a single element.
    pub fn new() -> (r: Self)
        ensures
            r.0@.len() == 0,
    {
        StaticDomain([])
    }

    /// One kernel invocation.
    pub fn dispatch_size(&self) -> (r: [u32; 3])
        ensures
            r@ == seq![1u32, 1u32, 1u32],
    {
        [1, 1, 1]
    }

    /// The single element belongs to the domain.
    pub fn contains(&self, index: ()) -> (r: bool)
        ensures
            r,
    {
        true
    }
}

impl StaticDomain<1> {
    /// A line of `size` elements.
    pub fn new(size: u32) -> (r: Self)
        ensures
            r.0@ == seq![size],
    {
        StaticDomain([size])
    }

    /// The number of elements.
    pub fn len(&self) -> (r: u32)
        ensures
            r == self.0@[0],
    {
        self.0[0]
    }

    /// The number of elements.
    pub fn width(&self) -> (r: u32)
        ensures
            r == self.0@[0],
    {
        self.0[0]
    }

    /// One invocation per element.
    pub fn dispatch_size(&self) -> (r: [u32; 3])
        ensures
            r@ == seq![self.0@[0], 1u32, 1u32],
    {
        [self.0[0], 1, 1]
    }

    /// Whether an index lies in the line.
    pub fn contains(&self, index: u32) -> (r: bool)
        ensures
            r == (index < self.0@[0]),
    {
        index < self.0[0]
    }
}

impl StaticDomain<2> {
    /// A rectangle of `width` by `height` elements.
    pub fn new(width: u32, height: u32) -> (r: Self)
        ensures
            r.0@ == seq![width, height],
    {
        StaticDomain([width, height])
    }

    pub fn width(&self) -> (r: u32)
        ensures
            r == self.0@[0],
    {
        self.0[0]
    }

    pub fn height(&self) -> (r: u32)
        ensures
            r == self.0@[1],
    {
        self.0[1]
    }

    /// One invocation per element.
    pub fn dispatch_size(&self) -> (r: [u32; 3])
        ensures
            r@ == seq![self.0@[0], self.0@[1], 1u32],
    {
        [self.0[0], self.0[1], 1]
    }

    /// Whether an index lies in the rectangle.
    pub fn contains(&self, index: Vec2<u32>) -> (r: bool)
        ensures
            r == (index.x < self.0@[0] && index.y < self.0@[1]),
    {
        index.x < self.0[0] && index.y < self.0[1]
    }
}

impl StaticDomain<3> {
    /// A box of `width` by `height` by `depth` elements.
    pub fn new(width: u32, height: u32, depth: u32) -> (r: Self)
        ensures
            r.0@ == seq![width, height, depth],
    {
        StaticDomain([width, height, depth])
    }

    pub fn width(&self) -> (r: u32)
        ensures
            r == self.0@[0],
    {
        self.0[0]
    }

    pub fn height(&self) -> (r: u32)
        ensures
            r == self.0@[1],
    {
        self.0[1]
    }

    pub fn depth(&self) -> (r: u32)
        ensures
            r == self.0@[2],
    {
        self.0[2]
    }

    /// One invocation per element.
    pub fn dispatch_size(&self) -> (r: [u32; 3])
        ensures
            r@ == self.0@,
    {
        self.0
    }

    /// Whether an index lies in the box.
    pub fn contains(&self, index: Vec3<u32>) -> (r: bool)
        ensures
            r == (index.x < self.0@[0] && index.y < self.0@[1] && index.z < self.0@[2]),
    {
        index.x < self.0[0] && index.y < self.0[1] && index.z < self.0[2]
    }
}

/// A line whose length is chosen when the kernel is dispatched.
#[derive(Debug, Clone, Copy, PartialEq, Eq)]
pub struct DynamicDomain {
    pub len: u32,
}

impl DynamicDomain {
    pub fn new(len: u32) -> (r: Self)
        ensures
            r.len == len,
    {
        DynamicDomain { len }
    }

    /// One invocation per element of the current length.
    pub fn dispatch_size(&self) -> (r: [u32; 3])
        ensures
            r@ == seq![self.len, 1u32, 1u32],
    {
        [self.len, 1, 1]
    }
}

/// A domain whose dispatch size is given with each dispatch.
#[derive(Debug, Clone, Copy, PartialEq, Eq)]
pub struct SizedDomain;

impl SizedDomain {
    /// The dispatch size given.
    pub fn dispatch_size(&self, args: [u32; 3]) -> (r: [u32; 3])
        ensures
            r@ == args@,
    {
        args
    }
}

/// A call of a built kernel: which kernel, the dispatch size, and the
/// argument handed through to it.
#[derive(Debug, Clone, Copy, PartialEq, Eq)]
pub struct KernelCall<P> {
    pub kernel: u64,
    pub dispatch_size: [u32; 3],
    pub passthrough: P,
}

/// What a domain is handed to dispatch a built kernel: the kernel, and the
/// name under which its dispatches appear in the compute graph.
#[derive(Debug, Clone)]
pub struct KernelDispatch {
    pub kernel: u64,
    pub debug_name: Option<String>,
}

impl KernelDispatch {
    /// The kernel's name, if it has one.
    pub fn kernel_name(&self) -> (r: Option<&str>)
        ensures
            r matches Some(s) ==> self.debug_name matches Some(n) && s@ == n@,
            r is None <==> self.debug_name is None,
    {
        match &self.debug_name {
            Some(n) => Some(n.as_str()),
            None => None,
        }
    }

    /// The call of the kernel with a dispatch size and an argument.
    pub fn dispatch_raw_with<P>(&self, dispatch_size: [u32; 3], passthrough: P) -> (r: KernelCall<P>)
        ensures
            r.kernel == self.kernel,
            r.dispatch_size == dispatch_size,
            r.passthrough == passthrough,
    {
        KernelCall { kernel: self.kernel, dispatch_size, passthrough }
    }

    /// The call of the kernel with a dispatch size.
    pub fn dispatch_raw(&self, dispatch_size: [u32; 3]) -> (r: KernelCall<()>)
        ensures
            r.kernel == self.kernel,
            r.dispatch_size == dispatch_size,
    {
        self.dispatch_raw_with(dispatch_size, ())
    }

    /// The call of the kernel as a node of the compute graph, named after the
    /// kernel where it has a name.
    pub fn dispatch_with<P, R>(&self, dispatch_size: [u32; 3], passthrough: P) -> (r: NodeConfigs<
        KernelCall<P>,
        R,
    >)
        ensures
            r is Single,
            r->Single_config.command == Some(
                KernelCall { kernel: self.kernel, dispatch_size, passthrough },
            ),
            r->Single_config.tag is None,
            r->Single_config.handle is None,
            r->Single_config.release is None,
            r->Single_constraints@.len() == 0,
            match self.debug_name {
                Some(n) => r->Single_config.debug_name matches Some(s) && s@ == n@,
                None => r->Single_config.debug_name is None,
            },
    {
        let config = NodeConfigs::command(self.dispatch_raw_with(dispatch_size, passthrough));
        match self.kernel_name() {
            Some(name) => config.debug_name(name),
            None => config,
        }
    }

    /// The call of the kernel as a node of the compute graph.
    pub fn dispatch<R>(&self, dispatch_size: [u32; 3]) -> (r: NodeConfigs<KernelCall<()>, R>)
        ensures
            r is Single,
            r->Single_config.command == Some(KernelCall { kernel: self.kernel, dispatch_size, passthrough: () }),
            r->Single_config.tag is None,
            r->Single_config.handle is None,
            r->Single_config.release is None,
            r->Single_constraints@.len() == 0,
            match self.debug_name {
                Some(n) => r->Single_config.debug_name matches Some(s) && s@ == n@,
                None => r->Single_config.debug_name is None,
            },
    {
        self.dispatch_with(dispatch_size, ())
    }
}

} // verus!
