//! Validation of command-line argument values.  Everything that can be
//! decided from the argument text alone is decided here; probes that need
//! the filesystem or the resolver (does the path name a file, does the
//! host resolve) belong to the process edge.

use vstd::prelude::*;

use vstd::string::StringSliceAdditionalSpecFns;

verus! {

/// An ASCII decimal digit.
pub open spec fn is_digit(c: u8) -> bool {
    48 <= c <= 57
}

/// The number a run of decimal digits spells.
pub open spec fn digits_value(bs: Seq<u8>) -> int
    decreases bs.len(),
{
    if bs.len() == 0 {
        0
    } else {
        digits_value(bs.drop_last()) * 10 + (bs.last() - 48)
    }
}

/// A non-empty run of digits spelling a port number, at most 65535.
pub open spec fn valid_port_bytes(bs: Seq<u8>) -> bool {
    &&& bs.len() > 0
    &&& forall|i: int| 0 <= i < bs.len() ==> is_digit(#[trigger] bs[i])
    &&& digits_value(bs) <= 65535
}

/// Position `i` splits `bs` into a non-empty host, the last colon, and a
/// valid port after it.
pub open spec fn is_addr_split(bs: Seq<u8>, i: int) -> bool {
    &&& 0 < i < bs.len()
    &&& bs[i] == 58
    &&& forall|j: int| i < j < bs.len() ==> bs[j] != 58
    &&& valid_port_bytes(bs.subrange(i + 1, bs.len() as int))
}

/// The shape `host:port`: a non-empty host, then the last colon, then a
/// port up to 65535.  Splitting at the last colon leaves colons inside the
/// host free for bracketed IPv6 forms.
pub open spec fn valid_socket_addr(bs: Seq<u8>) -> bool {
    exists|i: int| #[trigger] is_addr_split(bs, i)
}

/// Only the last colon can split an address.
proof fn lemma_split_is_last_colon(bs: Seq<u8>, ci: int)
    requires
        0 <= ci < bs.len(),
        bs[ci] == 58,
        forall|j: int| ci < j < bs.len() ==> bs[j] != 58,
    ensures
        forall|i: int| #[trigger] is_addr_split(bs, i) ==> i == ci,
{
    assert forall|i: int| #[trigger] is_addr_split(bs, i) implies i == ci by {
        if i < ci {
            assert(bs[ci] == 58);
            assert(false);
        }
        if i > ci {
            assert(bs[i] == 58);
            assert(false);
        }
    }
}

/// Validates a file-path argument.  An empty string is rejected here;
/// whether the path names an accessible file only the filesystem can tell,
/// so that probe stays with the caller at the process edge.
pub fn file_path(s: &str) -> (r: Result<String, String>)
    ensures
        match r {
            Ok(p) => s@.len() > 0 && p@ == s@,
            Err(m) => s@.len() == 0 && m@ == "empty path"@,
        },
{
    if s.is_empty() {
        return Err("empty path".to_owned());
    }
    Ok(s.to_owned())
}

/// Validates a listen-address argument: it must have the shape
/// `host:port`, with a non-empty host and a numeric port up to 65535.
/// Whether the host actually resolves is the resolver's question, asked at
/// the process edge.
pub fn socket_addr(s: &str) -> (r: Result<String, String>)
    ensures
        match r {
            Ok(p) => valid_socket_addr(s.spec_bytes()) && p@ == s@,
            Err(m) => !valid_socket_addr(s.spec_bytes()) && m@
                == "Socket Address for server is invalid"@,
        },
{
    let ghost bs = s.spec_bytes();
    let bytes = s.as_bytes();
    let n = bytes.len();
    let mut t: usize = 0;
    let mut colon: usize = 0;
    let mut found = false;
    while t < n
        invariant
            bytes@ == bs,
            bs == s.spec_bytes(),
            n == bs.len(),
            0 <= t <= n,
            found ==> colon < t && bs[colon as int] == 58 && (forall|j: int|
                colon < j < t ==> bs[j] != 58),
            !found ==> forall|j: int| 0 <= j < t ==> bs[j] != 58,
        decreases n - t,
    {
        if bytes[t] == 58 {
            colon = t;
            found = true;
        }
        t += 1;
    }
    if !found {
        proof {
            assert forall|i: int| !(#[trigger] is_addr_split(bs, i)) by {
                if 0 < i < bs.len() {
                    assert(bs[i] != 58);
                }
            }
        }
        return Err("Socket Address for server is invalid".to_owned());
    }
    proof {
        lemma_split_is_last_colon(bs, colon as int);
    }
    if colon == 0 || colon + 1 == n {
        return Err("Socket Address for server is invalid".to_owned());
    }
    let lo = colon + 1;
    let ghost lo0 = lo as int;
    let mut val: u32 = 0;
    let mut t2: usize = lo;
    while t2 < n
        invariant
            bytes@ == bs,
            bs == s.spec_bytes(),
            n == bs.len(),
            0 < lo0 <= t2 <= n,
            lo0 == lo,
            lo0 == colon + 1,
            0 < colon < n,
            bs[colon as int] == 58,
            forall|j: int| colon < j < n ==> bs[j] != 58,
            forall|j: int| lo0 <= j < t2 ==> is_digit(#[trigger] bs[j]),
            val <= 65536,
            val <= 65535 ==> val == digits_value(bs.subrange(lo0, t2 as int)),
            val == 65536 ==> digits_value(bs.subrange(lo0, t2 as int)) > 65535,
        decreases n - t2,
    {
        let b = bytes[t2];
        if b < 48 || b > 57 {
            proof {
                lemma_split_is_last_colon(bs, colon as int);
                assert(!is_digit(bs[t2 as int]));
                assert forall|i: int| !(#[trigger] is_addr_split(bs, i)) by {
                    if is_addr_split(bs, i) {
                        assert(i == colon);
                        assert(bs.subrange(lo0, bs.len() as int)[t2 - lo0] == bs[t2 as int]);
                        assert(false);
                    }
                }
            }
            return Err("Socket Address for server is invalid".to_owned());
        }
        let d: u32 = (b - 48) as u32;
        proof {
            assert(bs.subrange(lo0, t2 + 1).drop_last() =~= bs.subrange(lo0, t2 as int));
            assert(bs.subrange(lo0, t2 + 1).last() == bs[t2 as int]);
        }
        if val <= 65535 {
            val = val * 10 + d;
            if val > 65535 {
                val = 65536;
            }
        } else {
            proof {
                assert(digits_value(bs.subrange(lo0, t2 + 1)) == digits_value(
                    bs.subrange(lo0, t2 as int),
                ) * 10 + (bs[t2 as int] - 48));
            }
        }
        t2 += 1;
    }
    if val > 65535 {
        proof {
            lemma_split_is_last_colon(bs, colon as int);
            assert(digits_value(bs.subrange(lo0, bs.len() as int)) > 65535);
            assert forall|i: int| !(#[trigger] is_addr_split(bs, i)) by {
                if is_addr_split(bs, i) {
                    assert(i == colon);
                    assert(false);
                }
            }
        }
        return Err("Socket Address for server is invalid".to_owned());
    }
    proof {
        assert(valid_port_bytes(bs.subrange(lo0, bs.len() as int))) by {
            assert(bs.subrange(lo0, bs.len() as int).len() > 0);
            assert forall|i: int|
                0 <= i < bs.subrange(lo0, bs.len() as int).len() implies is_digit(
                #[trigger] bs.subrange(lo0, bs.len() as int)[i],
            ) by {
                assert(bs.subrange(lo0, bs.len() as int)[i] == bs[lo0 + i]);
            }
        }
        assert(is_addr_split(bs, colon as int));
    }
    Ok(s.to_owned())
}

} // verus!
