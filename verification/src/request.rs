//! Requests: the input of an authorization decision.

use vstd::prelude::*;

use crate::statement::{segments_of, RequestResource};

verus! {

use vstd::std_specs::cmp::PartialEqSpec;

broadcast use vstd::std_specs::vec::group_vec_axioms;

/// A caller's principal, held as its raw bytes. The engine never reads a
/// principal except to compare it for equality.
#[derive(Debug, PartialEq, Eq)]
pub struct Principal {
    bytes: Vec<u8>,
}

impl View for Principal {
    type V = Seq<u8>;

    closed spec fn view(&self) -> Seq<u8> {
        self.bytes@
    }
}

impl Principal {
    /// Wraps the raw bytes of a principal.
    pub fn new(bytes: Vec<u8>) -> (r: Principal)
        ensures
            r@ == bytes@,
    {
        Principal { bytes }
    }

    /// The raw bytes of the principal.
    pub fn as_bytes(&self) -> (r: &Vec<u8>)
        ensures
            r@ == self@,
    {
        &self.bytes
    }

    /// Decides whether two principals are the same caller.
    pub fn same_as(&self, other: &Principal) -> (r: bool)
        ensures
            r == (self@ == other@),
    {
        let r = self.bytes == other.bytes;
        proof {
            if r {
                assert(self.bytes@ =~= other.bytes@);
            } else {
                if self.bytes@ == other.bytes@ {
                    assert(self.bytes.eq_spec(&other.bytes));
                }
            }
        }
        r
    }
}

/// Accumulates path segments front to back and produces the immutable
/// [`RequestResource`] chain whose segments stand in insertion order,
/// first segment outermost.
pub struct RequestResourceBuilder {
    data: Vec<String>,
}

impl View for RequestResourceBuilder {
    type V = Seq<Seq<char>>;

    closed spec fn view(&self) -> Seq<Seq<char>> {
        self.data@.map_values(|s: String| s@)
    }
}

impl RequestResourceBuilder {
    /// Starts a path at its outermost segment.
    pub fn new(node: &str) -> (r: RequestResourceBuilder)
        ensures
            r@ == seq![node@],
    {
        let mut data: Vec<String> = Vec::new();
        data.push(node.to_owned());
        let r = RequestResourceBuilder { data };
        proof {
            assert(r@ =~= seq![node@]);
        }
        r
    }

    /// Appends one segment beneath the segments added so far.
    pub fn add(self, node: &str) -> (r: RequestResourceBuilder)
        ensures
            r@ == self@.push(node@),
    {
        let mut data = self.data;
        data.push(node.to_owned());
        let r = RequestResourceBuilder { data };
        proof {
            assert(r@ =~= self@.push(node@));
        }
        r
    }

    /// Produces the path: its segments are exactly the segments added, in
    /// insertion order, outermost first.
    #[verifier::loop_isolation(false)]
    pub fn build(self) -> (r: RequestResource)
        requires
            self@.len() > 0,
        ensures
            segments_of(r) == self@,
    {
        let mut data = self.data;
        proof {
            assert(forall|i: int| 0 <= i < self@.len() ==> self@[i] == self.data@[i]@);
        }
        let last = data.pop().unwrap();
        let mut output = RequestResource::Resource(last);
        proof {
            assert(segments_of(output) =~= self@.skip(data@.len() as int));
        }
        while data.len() > 0
            invariant
                data@.len() < self@.len(),
                forall|i: int| 0 <= i < data@.len() ==> data@[i] == self.data@[i],
                segments_of(output) == self@.skip(data@.len() as int),
            decreases data@.len(),
        {
            let ghost n = data@.len() as int;
            let node = data.pop().unwrap();
            proof {
                assert(node@ == self@[n - 1]);
            }
            let tmp = output;
            output = RequestResource::Nested { node, next: Option::Some(Box::new(tmp)) };
            proof {
                assert(segments_of(output) =~= self@.skip(n - 1));
            }
        }
        proof {
            assert(segments_of(output) =~= self@);
        }
        output
    }
}

/// The mathematical value of a [`Request`]: the action name, the concrete
/// resource path, and the caller's principal bytes.
pub struct RequestModel {
    pub action: Seq<char>,
    pub path: Seq<Seq<char>>,
    pub caller: Seq<u8>,
}

/// One authorization question: may `caller` perform `action` on the
/// resource at `resource`?
pub struct Request {
    action: String,
    resource: RequestResource,
    caller: Principal,
}

impl View for Request {
    type V = RequestModel;

    closed spec fn view(&self) -> RequestModel {
        RequestModel {
            action: self.action@,
            path: segments_of(self.resource),
            caller: self.caller@,
        }
    }
}

impl Request {
    /// Assembles a request from its three parts.
    pub fn new(action: String, resource: RequestResource, caller: Principal) -> (r: Self)
        ensures
            r@ == (RequestModel { action: action@, path: segments_of(resource), caller: caller@ }),
    {
        Request { action, resource, caller }
    }

    /// The action name of the request.
    pub fn action(&self) -> (r: &String)
        ensures
            r@ == self@.action,
    {
        &self.action
    }

    /// The concrete resource path of the request.
    pub fn resource(&self) -> (r: &RequestResource)
        ensures
            segments_of(*r) == self@.path,
    {
        &self.resource
    }

    /// The caller's principal.
    pub fn caller(&self) -> (r: &Principal)
        ensures
            r@ == self@.caller,
    {
        &self.caller
    }
}

} // verus!
