//! A stand-in for a transport client: it answers requests from a list of
//! expectations, in the order they were given.

use vstd::prelude::*;
use crate::json::str_equal;
use vstd::string::StringExecFns;

verus! {

/// Request headers, as name and value pairs in order. Headers are compared
/// pair by pair, so a caller that holds them in a map passes them in key
/// order, as a `BTreeMap` iterates them.
pub type Headers = Vec<(String, String)>;

pub open spec fn header_views(h: Seq<(String, String)>) -> Seq<(Seq<char>, Seq<char>)> {
    h.map_values(|p: (String, String)| (p.0@, p.1@))
}

/// A request that is expected, and the reply to give it.
#[derive(Debug)]
pub struct Expectation {
    pub pathver: String,
    pub req_headers: Headers,
    pub req_body: Vec<u8>,
    pub res_headers: Headers,
    pub res_body: Vec<u8>,
    /// Milliseconds to wait before answering.
    pub sleep: Option<u64>,
}

/// The answer to a request that met an expectation.
#[derive(Debug)]
pub struct MockReply {
    pub headers: Headers,
    pub body: Vec<u8>,
    pub sleep: Option<u64>,
}

#[derive(Debug, Clone, Copy, PartialEq, Eq, Structural)]
pub enum MockError {
    NoExpectation,
    HeadersMismatch,
    BodyMismatch,
}

pub struct MockClient {
    expect: Vec<Expectation>,
}

impl MockClient {
    /// The pathvers of the expectations still waiting, in order.
    pub closed spec fn pending(&self) -> Seq<Seq<char>> {
        self.expect@.map_values(|e: Expectation| e.pathver@)
    }

    /// The expectations still waiting, in order.
    pub closed spec fn expectations(&self) -> Seq<Expectation> {
        self.expect@
    }

    pub fn new() -> (r: MockClient)
        ensures
            r.pending() == Seq::<Seq<char>>::empty(),
    {
        let r = MockClient { expect: Vec::new() };
        assert(r.pending() =~= Seq::<Seq<char>>::empty());
        r
    }

    pub fn expect(&mut self, expectation: Expectation)
        ensures
            final(self).pending() == old(self).pending().push(expectation.pathver@),
    {
        let ghost pv = expectation.pathver@;
        self.expect.push(expectation);
        assert(self.pending() =~= old(self).pending().push(pv));
    }

    pub fn clear(&mut self)
        ensures
            final(self).pending() == Seq::<Seq<char>>::empty(),
    {
        self.expect.clear();
        assert(self.pending() =~= Seq::<Seq<char>>::empty());
    }

    pub fn expectations_met(&mut self) -> (r: bool)
        ensures
            r == (old(self).pending().len() == 0),
            final(self).pending() == old(self).pending(),
    {
        self.expect.len() == 0
    }

    pub fn expectation_count(&mut self) -> (r: usize)
        ensures
            r == old(self).pending().len(),
            final(self).pending() == old(self).pending(),
    {
        self.expect.len()
    }

    fn position(&self, pathver: &str) -> (r: usize)
        ensures
            r <= self.pending().len(),
            forall|k: int| 0 <= k < r ==> self.pending()[k] != pathver@,
            r < self.pending().len() ==> self.pending()[r as int] == pathver@,
    {
        let mut i: usize = 0;
        while i < self.expect.len()
            invariant
                i <= self.expect@.len(),
                forall|k: int| 0 <= k < i ==> self.pending()[k] != pathver@,
            decreases self.expect@.len() - i,
        {
            assert(self.pending()[i as int] == self.expect@[i as int].pathver@);
            if str_equal(self.expect[i].pathver.as_str(), pathver) {
                return i;
            }
            i = i + 1;
        }
        i
    }

    /// Answers a request for `pathver`: takes the first expectation for it
    /// and checks the request's headers and body against it.
    pub fn answer(&mut self, pathver: &str, headers: &Headers, body: &[u8]) -> (r: Result<MockReply, MockError>)
        ensures
            !old(self).pending().contains(pathver@) ==> r == Err::<MockReply, MockError>(MockError::NoExpectation)
                && final(self).pending() == old(self).pending(),
            old(self).pending().contains(pathver@) ==> {
                let i = first_index(old(self).pending(), pathver@);
                let e = old(self).expectations()[i];
                &&& final(self).pending() == old(self).pending().remove(i)
                &&& final(self).expectations() == old(self).expectations().remove(i)
                &&& if header_views(headers@) != header_views(e.req_headers@) {
                    r == Err::<MockReply, MockError>(MockError::HeadersMismatch)
                } else if body@ != e.req_body@ {
                    r == Err::<MockReply, MockError>(MockError::BodyMismatch)
                } else {
                    &&& r is Ok
                    &&& header_views(r->Ok_0.headers@) == seq![("content-type"@, "application/json"@)]
                    &&& r->Ok_0.body@ == e.res_body@
                    &&& r->Ok_0.sleep == e.sleep
                }
            },
    {
        let i = self.position(pathver);
        if i == self.expect.len() {
            proof {
                if self.pending().contains(pathver@) {
                    let k = choose|k: int| 0 <= k < self.pending().len() && self.pending()[k] == pathver@;
                    assert(self.pending()[k] != pathver@);
                }
            }
            return Err(MockError::NoExpectation);
        }
        proof {
            lemma_first_index(self.pending(), pathver@, i as int);
        }
        let ghost before = self.expect@;
        let e = self.expect.remove(i);
        assert(e == old(self).expectations()[i as int]);
        assert(self.pending() =~= old(self).pending().remove(i as int));
        if !same_headers(headers, &e.req_headers) {
            return Err(MockError::HeadersMismatch);
        }
        if !same_bytes(body, e.req_body.as_slice()) {
            return Err(MockError::BodyMismatch);
        }
        let mut reply_headers: Headers = Vec::new();
        reply_headers.push((String::from_str("content-type"), String::from_str("application/json")));
        assert(header_views(reply_headers@) =~= seq![("content-type"@, "application/json"@)]);
        Ok(MockReply { headers: reply_headers, body: e.res_body, sleep: e.sleep })
    }
}

/// The index of the first occurrence of `x` in `s`.
pub open spec fn first_index(s: Seq<Seq<char>>, x: Seq<char>) -> int {
    choose|i: int| 0 <= i < s.len() && s[i] == x && forall|k: int| 0 <= k < i ==> s[k] != x
}

proof fn lemma_first_index(s: Seq<Seq<char>>, x: Seq<char>, i: int)
    requires
        0 <= i < s.len(),
        s[i] == x,
        forall|k: int| 0 <= k < i ==> s[k] != x,
    ensures
        first_index(s, x) == i,
        s.contains(x),
{
    let j = first_index(s, x);
    assert(0 <= j < s.len() && s[j] == x && forall|k: int| 0 <= k < j ==> s[k] != x);
    if j < i {
        assert(s[j] != x);
    } else if i < j {
        assert(s[i] != x);
    }
}

fn same_headers(a: &Headers, b: &Headers) -> (r: bool)
    ensures
        r == (header_views(a@) == header_views(b@)),
{
    if a.len() != b.len() {
        assert(header_views(a@).len() != header_views(b@).len());
        return false;
    }
    let mut i: usize = 0;
    while i < a.len()
        invariant
            a@.len() == b@.len(),
            i <= a@.len(),
            forall|k: int| 0 <= k < i ==> header_views(a@)[k] == header_views(b@)[k],
        decreases a@.len() - i,
    {
        if !(a[i].0 == b[i].0 && a[i].1 == b[i].1) {
            assert(header_views(a@)[i as int] != header_views(b@)[i as int]);
            return false;
        }
        i = i + 1;
    }
    assert(header_views(a@) =~= header_views(b@));
    true
}

fn same_bytes(a: &[u8], b: &[u8]) -> (r: bool)
    ensures
        r == (a@ == b@),
{
    if a.len() != b.len() {
        return false;
    }
    let mut i: usize = 0;
    while i < a.len()
        invariant
            a@.len() == b@.len(),
            i <= a@.len(),
            forall|k: int| 0 <= k < i ==> a@[k] == b@[k],
        decreases a@.len() - i,
    {
        if a[i] != b[i] {
            return false;
        }
        i = i + 1;
    }
    assert(a@ =~= b@);
    true
}

} // verus!
