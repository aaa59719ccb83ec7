//! Configuration choices the server is constructed with.

use vstd::prelude::*;
use vstd::string::StringSliceAdditionalSpecFns;

verus! {

/// Which backing store keeps the scheduler state: an external consistent
/// KV service, or the embedded single-node engine.
#[derive(Clone, Copy, PartialEq, Eq, Structural, Debug)]
pub enum ConfigBackend {
    Etcd,
    Standalone,
}

/// ASCII lower-casing of one byte.
pub open spec fn ascii_lower(c: u8) -> u8 {
    if 65 <= c <= 90 {
        (c + 32) as u8
    } else {
        c
    }
}

/// Byte-wise ASCII lower-casing.
pub open spec fn lower_bytes(s: Seq<u8>) -> Seq<u8> {
    s.map_values(|c: u8| ascii_lower(c))
}

fn bytes_eq_ignore_ascii_case(a: &[u8], b: &[u8]) -> (r: bool)
    ensures
        r == (lower_bytes(a@) == lower_bytes(b@)),
{
    if a.len() != b.len() {
        proof {
            assert(lower_bytes(a@).len() != lower_bytes(b@).len());
        }
        return false;
    }
    let mut k: usize = 0;
    while k < a.len()
        invariant
            a@.len() == b@.len(),
            k <= a@.len(),
            forall|j: int| 0 <= j < k ==> ascii_lower(a@[j]) == ascii_lower(b@[j]),
        decreases a@.len() - k,
    {
        let ca = a[k];
        let cb = b[k];
        let la = if 65 <= ca && ca <= 90 {
            ca + 32
        } else {
            ca
        };
        let lb = if 65 <= cb && cb <= 90 {
            cb + 32
        } else {
            cb
        };
        if la != lb {
            proof {
                assert(lower_bytes(a@)[k as int] != lower_bytes(b@)[k as int]);
            }
            return false;
        }
        k += 1;
    }
    proof {
        assert(lower_bytes(a@) =~= lower_bytes(b@));
    }
    true
}

impl ConfigBackend {
    /// Parses a backend name, ignoring ASCII case: exactly the two
    /// variant names are accepted.
    pub fn parse(s: &str) -> (r: Result<ConfigBackend, String>)
        ensures
            lower_bytes(s.spec_bytes()) == lower_bytes("etcd".spec_bytes()) ==> (r matches Ok(b)
                && b == ConfigBackend::Etcd),
            lower_bytes(s.spec_bytes()) == lower_bytes("standalone".spec_bytes()) ==> (r matches Ok(
                b,
            ) && b == ConfigBackend::Standalone),
            (lower_bytes(s.spec_bytes()) != lower_bytes("etcd".spec_bytes()) && lower_bytes(
                s.spec_bytes(),
            ) != lower_bytes("standalone".spec_bytes())) ==> r is Err,
    {
        proof {
            reveal_strlit("etcd");
            reveal_strlit("standalone");
            assert(vstd::utf8::is_ascii_chars("etcd"@));
            assert(vstd::utf8::is_ascii_chars("standalone"@));
            vstd::utf8::is_ascii_chars_encode_utf8("etcd"@);
            vstd::utf8::is_ascii_chars_encode_utf8("standalone"@);
            assert(lower_bytes("etcd".spec_bytes()).len() == 4);
            assert(lower_bytes("standalone".spec_bytes()).len() == 10);
        }
        if bytes_eq_ignore_ascii_case(s.as_bytes(), "etcd".as_bytes()) {
            Ok(ConfigBackend::Etcd)
        } else if bytes_eq_ignore_ascii_case(s.as_bytes(), "standalone".as_bytes()) {
            Ok(ConfigBackend::Standalone)
        } else {
            Err(String::new())
        }
    }
}

impl core::str::FromStr for ConfigBackend {
    type Err = String;

    fn from_str(s: &str) -> Result<ConfigBackend, String> {
        ConfigBackend::parse(s)
    }
}

} // verus!
