//! Limits of the MCP server: which workspace roots a request may open and how large a request
//! line may be.
use crate::text::owned;
use vstd::prelude::*;

verus! {

/// The request size limit of a confined policy (one mebibyte).
pub const DEFAULT_MAX_REQUEST_BYTES: usize = 1048576;

#[derive(Clone, Debug)]
pub struct ServerPolicy {
    allowed_roots: Vec<String>,
    allow_any_root: bool,
    max_request_bytes: usize,
}

impl ServerPolicy {
    /// The roots a request may open, besides any root when `any_root` holds.
    pub closed spec fn roots(&self) -> Seq<Seq<char>> {
        self.allowed_roots@.map_values(|r: String| r@)
    }

    /// Any root may be opened.
    pub closed spec fn any_root(&self) -> bool {
        self.allow_any_root
    }

    /// The largest accepted request line, in bytes.
    pub closed spec fn max_bytes(&self) -> usize {
        self.max_request_bytes
    }

    /// A policy that admits only `default_root` and request lines of up to one mebibyte.
    pub fn confined(default_root: &str) -> (r: Self)
        ensures
            r.roots() == seq![default_root@],
            !r.any_root(),
            r.max_bytes() == DEFAULT_MAX_REQUEST_BYTES,
    {
        let mut allowed_roots: Vec<String> = Vec::new();
        allowed_roots.push(owned(default_root));
        let r = ServerPolicy { allowed_roots, allow_any_root: false, max_request_bytes: DEFAULT_MAX_REQUEST_BYTES };
        proof {
            assert(r.roots() =~= seq![default_root@]);
        }
        r
    }

    pub fn max_request_bytes(&self) -> (r: usize)
        ensures
            r == self.max_bytes(),
    {
        self.max_request_bytes
    }

    /// Admits one more root.
    pub fn with_allowed_root(self, root: String) -> (r: Self)
        ensures
            r.roots() == self.roots().push(root@),
            r.any_root() == self.any_root(),
            r.max_bytes() == self.max_bytes(),
    {
        let mut policy = self;
        let ghost before = policy.allowed_roots@;
        policy.allowed_roots.push(root);
        proof {
            assert(policy.roots() =~= before.map_values(|r: String| r@).push(root@));
        }
        policy
    }

    /// Admits every root.
    pub fn allow_any_root(self) -> (r: Self)
        ensures
            r.roots() == self.roots(),
            r.any_root(),
            r.max_bytes() == self.max_bytes(),
    {
        let mut policy = self;
        policy.allow_any_root = true;
        policy
    }

    /// Sets the request size limit, which is never below one byte.
    pub fn with_max_request_bytes(self, bytes: usize) -> (r: Self)
        ensures
            r.roots() == self.roots(),
            r.any_root() == self.any_root(),
            r.max_bytes() == if bytes >= 1 { bytes } else { 1 },
    {
        let mut policy = self;
        policy.max_request_bytes = if bytes >= 1 { bytes } else { 1 };
        policy
    }

    /// Whether every root is admitted.
    pub fn allows_any_root(&self) -> (r: bool)
        ensures
            r == self.any_root(),
    {
        self.allow_any_root
    }

    /// The admitted roots, as configured.
    pub fn allowed_roots(&self) -> (r: &[String])
        ensures
            r@.map_values(|s: String| s@) == self.roots(),
    {
        self.allowed_roots.as_slice()
    }

    /// A request line of `len` bytes is within the limit.
    pub fn accepts_request_len(&self, len: usize) -> (r: bool)
        ensures
            r == (len <= self.max_bytes()),
    {
        len <= self.max_request_bytes
    }
}

} // verus!
