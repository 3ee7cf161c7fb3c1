//! URLs as the coordinator reads them.
//!
//! URL parsing is outside this crate: a [`Url`] arrives already broken into
//! the only parts the coordinator ever inspects — the host, the port and the
//! path, each as plain bytes.  The coordinator asks two questions of a URL:
//! whether two URLs share an origin (equal host and port; the scheme is
//! deliberately ignored, a known simplification), and whether the path names
//! a script-only resource (it ends in `.js`).

use vstd::prelude::*;

verus! {

/// A URL broken into the parts the coordinator reads.
pub struct Url {
    /// Host bytes, e.g. `b"a"`.
    pub host: Vec<u8>,
    /// Port, if the URL names one.
    pub port: Option<u16>,
    /// Path bytes, e.g. `b"/child"`.
    pub path: Vec<u8>,
}

/// Mathematical image of a [`Url`].
pub struct UrlView {
    pub host: Seq<u8>,
    pub port: Option<u16>,
    pub path: Seq<u8>,
}

impl View for Url {
    type V = UrlView;

    open spec fn view(&self) -> UrlView {
        UrlView { host: self.host@, port: self.port, path: self.path@ }
    }
}

/// Two URLs are same-origin when host and port agree.
pub open spec fn same_origin_spec(a: UrlView, b: UrlView) -> bool {
    a.host == b.host && a.port == b.port
}

/// A path names a script-only resource when it ends in `.js`.
pub open spec fn is_script_path(p: Seq<u8>) -> bool {
    &&& p.len() >= 3
    &&& p[p.len() - 3] == 0x2eu8
    &&& p[p.len() - 2] == 0x6au8
    &&& p[p.len() - 1] == 0x73u8
}

impl Url {
    /// A fresh URL value equal to this one.
    pub fn clone_url(&self) -> (r: Url)
        ensures
            r@ == self@,
    {
        let mut host: Vec<u8> = Vec::new();
        let mut i: usize = 0;
        while i < self.host.len()
            invariant
                i <= self.host.len(),
                host@ == self.host@.subrange(0, i as int),
            decreases self.host.len() - i,
        {
            host.push(self.host[i]);
            i = i + 1;
        }
        let mut path: Vec<u8> = Vec::new();
        let mut j: usize = 0;
        while j < self.path.len()
            invariant
                j <= self.path.len(),
                path@ == self.path@.subrange(0, j as int),
            decreases self.path.len() - j,
        {
            path.push(self.path[j]);
            j = j + 1;
        }
        let r = Url { host, port: self.port, path };
        proof {
            assert(r.host@ =~= self.host@);
            assert(r.path@ =~= self.path@);
        }
        r
    }

    /// Whether this URL and `other` share an origin.
    pub fn same_origin(&self, other: &Url) -> (r: bool)
        ensures
            r == same_origin_spec(self@, other@),
    {
        let hosts_eq = bytes_eq(&self.host, &other.host);
        let ports_eq = match (self.port, other.port) {
            (None, None) => true,
            (Some(p), Some(q)) => p == q,
            _ => false,
        };
        hosts_eq && ports_eq
    }

    /// Whether the path names a script-only resource.
    pub fn is_script(&self) -> (r: bool)
        ensures
            r == is_script_path(self@.path),
    {
        let n = self.path.len();
        n >= 3 && self.path[n - 3] == 0x2eu8 && self.path[n - 2] == 0x6au8 && self.path[n - 1] == 0x73u8
    }
}

/// Byte-for-byte equality of two byte vectors.
pub fn bytes_eq(a: &Vec<u8>, b: &Vec<u8>) -> (r: bool)
    ensures
        r == (a@ == b@),
{
    if a.len() != b.len() {
        proof {
            assert(a@ != b@) by {
                assert(a@.len() != b@.len());
            }
        }
        return false;
    }
    let mut i: usize = 0;
    while i < a.len()
        invariant
            i <= a.len(),
            a.len() == b.len(),
            forall|k: int| 0 <= k < i ==> a@[k] == b@[k],
        decreases a.len() - i,
    {
        if a[i] != b[i] {
            return false;
        }
        i = i + 1;
    }
    proof {
        assert(a@ =~= b@);
    }
    true
}

} // verus!
