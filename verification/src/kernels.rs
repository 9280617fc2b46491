//! Decoding kernels that a file carries for the encodings it uses.

use vstd::prelude::*;

verus! {

/// A kernel module embedded in a file, which decodes one array encoding.
pub struct EmbeddedKernel {
    id: String,
    abi_version: u32,
    module: Vec<u8>,
}

impl EmbeddedKernel {
    /// The array encoding this kernel decodes.
    pub closed spec fn encoding(&self) -> Seq<char> {
        self.id@
    }

    /// The host/guest ABI version the kernel was built against.
    pub closed spec fn version(&self) -> u32 {
        self.abi_version
    }

    /// The kernel module's bytes.
    pub closed spec fn bytes(&self) -> Seq<u8> {
        self.module@
    }

    /// Create a kernel for the array encoding `id`.
    ///
    /// `abi_version` is the host/guest ABI the module was built against; a loader is expected to
    /// reject a version it does not implement.
    pub fn new(id: String, abi_version: u32, module: Vec<u8>) -> (kernel: Self)
        ensures
            kernel.encoding() == id@,
            kernel.version() == abi_version,
            kernel.bytes() == module@,
    {
        EmbeddedKernel { id, abi_version, module }
    }

    /// The array encoding id this kernel decodes, e.g. `fastlanes.bitpacked`.
    pub fn id(&self) -> (id: &str)
        ensures
            id@ == self.encoding(),
    {
        self.id.as_str()
    }

    /// The host/guest ABI version the kernel was built against.
    pub fn abi_version(&self) -> (version: u32)
        ensures
            version == self.version(),
    {
        self.abi_version
    }

    /// The kernel module's bytes.
    pub fn module(&self) -> (module: &[u8])
        ensures
            module@ == self.bytes(),
    {
        self.module.as_slice()
    }
}

/// What handles the kernels embedded in files opened with a session: a loader `L`, if one is
/// installed.
pub struct EmbeddedKernelSession<L> {
    loader: Option<L>,
}

impl<L> EmbeddedKernelSession<L> {
    /// The installed loader, if any.
    pub closed spec fn installed(&self) -> Option<L> {
        self.loader
    }

    /// Install `loader` as the handler for kernels embedded in files opened with this session.
    pub fn new(loader: L) -> (session: Self)
        ensures
            session.installed() == Some(loader),
    {
        EmbeddedKernelSession { loader: Some(loader) }
    }

    /// The installed loader, if any.
    pub fn loader(&self) -> (loader: Option<&L>)
        ensures
            match loader {
                Some(loader) => self.installed() == Some(*loader),
                None => self.installed() is None,
            },
    {
        match &self.loader {
            Some(loader) => Some(loader),
            None => None,
        }
    }
}

impl<L> Default for EmbeddedKernelSession<L> {
    /// No loader is installed.
    fn default() -> (session: Self)
        ensures
            session.installed() is None,
    {
        EmbeddedKernelSession { loader: None }
    }
}

} // verus!
