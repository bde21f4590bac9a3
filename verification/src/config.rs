//! The structured request definition that rendered text decodes into, and
//! the classification of its method field.

use vstd::prelude::*;

verus! {

use crate::params::ParamMap;
use crate::validate::RequestrError;

/// A request definition: a URL, optional header lines, an optional body and
/// an optional HTTP method name. Decoding rendered text into this record is
/// the caller's concern; absent fields default as the field types say.
pub struct RequestConfig {
    pub url: Vec<u8>,
    pub header: ParamMap,
    pub body: Option<Vec<u8>>,
    pub method: Option<Vec<u8>>,
}

/// The header mapping a request definition starts with: empty.
pub fn default_header() -> (m: ParamMap)
    ensures
        m@ == Map::<Seq<u8>, Seq<u8>>::empty(),
        m.wf(),
        m.keys_seq() == Seq::<Seq<u8>>::empty(),
{
    ParamMap::new()
}

/// An HTTP method a request can be made with.
#[derive(Clone, Copy, Debug, PartialEq, Eq, Structural)]
pub enum HttpMethod {
    Delete,
    Get,
    Post,
    Put,
    Patch,
}

/// The ASCII uppercase of a byte.
pub open spec fn upper_byte(b: u8) -> u8 {
    if 0x61 <= b <= 0x7a {
        (b - 0x20) as u8
    } else {
        b
    }
}

/// The ASCII uppercase of a byte string.
pub open spec fn upper(s: Seq<u8>) -> Seq<u8> {
    s.map_values(|b: u8| upper_byte(b))
}

/// The method an uppercased name denotes, if any.
pub open spec fn method_of(u: Seq<u8>) -> Option<HttpMethod> {
    if u == seq![0x44u8, 0x45, 0x4c, 0x45, 0x54, 0x45] {
        Some(HttpMethod::Delete)
    } else if u == seq![0x47u8, 0x45, 0x54] {
        Some(HttpMethod::Get)
    } else if u == seq![0x50u8, 0x4f, 0x53, 0x54] {
        Some(HttpMethod::Post)
    } else if u == seq![0x50u8, 0x55, 0x54] {
        Some(HttpMethod::Put)
    } else if u == seq![0x50u8, 0x41, 0x54, 0x43, 0x48] {
        Some(HttpMethod::Patch)
    } else {
        None
    }
}

/// The method of an optional method field: an absent field means GET; a
/// present one is read without regard to letter case.
pub open spec fn classify_spec(m: Option<Seq<u8>>) -> Option<HttpMethod> {
    match m {
        None => Some(HttpMethod::Get),
        Some(s) => method_of(upper(s)),
    }
}

fn ascii_upper(s: &Vec<u8>) -> (r: Vec<u8>)
    ensures
        r@ == upper(s@),
{
    let mut r: Vec<u8> = Vec::new();
    let mut j: usize = 0;
    while j < s.len()
        invariant
            j <= s.len(),
            r@ == upper(s@).take(j as int),
        decreases s.len() - j,
    {
        let b = s[j];
        if 0x61 <= b && b <= 0x7a {
            r.push(b - 0x20);
        } else {
            r.push(b);
        }
        j += 1;
        proof {
            assert(r@ =~= upper(s@).take(j as int));
        }
    }
    proof {
        assert(upper(s@).take(s@.len() as int) =~= upper(s@));
    }
    r
}

fn eq_bytes3(u: &Vec<u8>, a: u8, b: u8, c: u8) -> (r: bool)
    ensures
        r == (u@ == seq![a, b, c]),
{
    if u.len() != 3 {
        proof {
            assert(seq![a, b, c].len() == 3);
        }
        return false;
    }
    let r = u[0] == a && u[1] == b && u[2] == c;
    proof {
        if r {
            assert(u@ =~= seq![a, b, c]);
        } else {
            if u@ == seq![a, b, c] {
                assert(u@[0] == a && u@[1] == b && u@[2] == c);
            }
        }
    }
    r
}

fn eq_bytes4(u: &Vec<u8>, a: u8, b: u8, c: u8, d: u8) -> (r: bool)
    ensures
        r == (u@ == seq![a, b, c, d]),
{
    if u.len() != 4 {
        proof {
            assert(seq![a, b, c, d].len() == 4);
        }
        return false;
    }
    let r = u[0] == a && u[1] == b && u[2] == c && u[3] == d;
    proof {
        if r {
            assert(u@ =~= seq![a, b, c, d]);
        } else {
            if u@ == seq![a, b, c, d] {
                assert(u@[0] == a && u@[1] == b && u@[2] == c && u@[3] == d);
            }
        }
    }
    r
}

fn eq_bytes5(u: &Vec<u8>, a: u8, b: u8, c: u8, d: u8, e: u8) -> (r: bool)
    ensures
        r == (u@ == seq![a, b, c, d, e]),
{
    if u.len() != 5 {
        proof {
            assert(seq![a, b, c, d, e].len() == 5);
        }
        return false;
    }
    let r = u[0] == a && u[1] == b && u[2] == c && u[3] == d && u[4] == e;
    proof {
        if r {
            assert(u@ =~= seq![a, b, c, d, e]);
        } else {
            if u@ == seq![a, b, c, d, e] {
                assert(u@[0] == a && u@[1] == b && u@[2] == c && u@[3] == d && u@[4] == e);
            }
        }
    }
    r
}

fn eq_bytes6(u: &Vec<u8>, a: u8, b: u8, c: u8, d: u8, e: u8, f: u8) -> (r: bool)
    ensures
        r == (u@ == seq![a, b, c, d, e, f]),
{
    if u.len() != 6 {
        proof {
            assert(seq![a, b, c, d, e, f].len() == 6);
        }
        return false;
    }
    let r = u[0] == a && u[1] == b && u[2] == c && u[3] == d && u[4] == e && u[5] == f;
    proof {
        if r {
            assert(u@ =~= seq![a, b, c, d, e, f]);
        } else {
            if u@ == seq![a, b, c, d, e, f] {
                assert(u@[0] == a && u@[1] == b && u@[2] == c && u@[3] == d && u@[4] == e && u@[5]
                    == f);
            }
        }
    }
    r
}

/// Reads a request definition's method field. An absent field means GET; a
/// recognized name, read without regard to letter case, gives its method;
/// anything else fails with the uppercased name, and only then.
pub fn classify_method(method: &Option<Vec<u8>>) -> (r: Result<HttpMethod, RequestrError>)
    ensures
        match r {
            Ok(h) => classify_spec(method.deep_view()) == Some(h),
            Err(e) => {
                &&& classify_spec(method.deep_view()) is None
                &&& e matches RequestrError::BrokenRequestConfig(msg) && method.deep_view()
                    matches Some(s) && msg@ == upper(s)
            },
        },
{
    match method {
        None => Ok(HttpMethod::Get),
        Some(v) => {
            proof {
                assert(v.deep_view() =~= v@);
                assert(method.deep_view() == Some(v@));
            }
            let u = ascii_upper(v);
            if eq_bytes6(&u, 0x44, 0x45, 0x4c, 0x45, 0x54, 0x45) {
                Ok(HttpMethod::Delete)
            } else if eq_bytes3(&u, 0x47, 0x45, 0x54) {
                Ok(HttpMethod::Get)
            } else if eq_bytes4(&u, 0x50, 0x4f, 0x53, 0x54) {
                Ok(HttpMethod::Post)
            } else if eq_bytes3(&u, 0x50, 0x55, 0x54) {
                Ok(HttpMethod::Put)
            } else if eq_bytes5(&u, 0x50, 0x41, 0x54, 0x43, 0x48) {
                Ok(HttpMethod::Patch)
            } else {
                Err(RequestrError::BrokenRequestConfig(u))
            }
        },
    }
}

} // verus!
