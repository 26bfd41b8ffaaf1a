use vstd::prelude::*;

use vstd::string::StringSliceAdditionalSpecFns;

verus! {

broadcast use vstd::utf8::group_utf8_lib;

/// The readable name of each well-known OID, keyed by its dotted text.
pub open spec fn known_name(oid: Seq<char>) -> Option<Seq<char>> {
    if oid == "1.2.840.113549.1.1.11"@ {
        Some("sha256WithRSAEncryption"@)
    } else if oid == "1.2.840.113549.1.12.1.3"@ {
        Some("pbeWithSHAAnd3-KeyTripleDES-CBC"@)
    } else if oid == "1.2.840.113549.1.12.10.1.2"@ {
        Some("pkcs-8ShroudedKeyBag"@)
    } else if oid == "1.2.840.113549.1.12.10.1.3"@ {
        Some("pkcs-12-certBag (PKCS #12 BagIds)"@)
    } else if oid == "1.2.840.113549.1.7.1"@ {
        Some("data (PKCS #7)"@)
    } else if oid == "1.2.840.113549.1.7.6"@ {
        Some("encryptedData"@)
    } else if oid == "1.2.840.113549.1.9.20"@ {
        Some("friendlyName"@)
    } else if oid == "1.2.840.113549.1.9.21"@ {
        Some("localKeyID"@)
    } else if oid == "1.2.840.113549.1.9.22.1"@ {
        Some("x509Certificate (for PKCS #12)"@)
    } else if oid == "1.3.14.3.2.26"@ {
        Some("sha1"@)
    } else if oid == "2.5.4.10"@ {
        Some("organizationName"@)
    } else if oid == "2.5.4.6"@ {
        Some("countryName"@)
    } else if oid == "2.5.4.8"@ {
        Some("stateOrProvinceName"@)
    } else {
        None
    }
}

/// Whether two texts are equal, compared byte by byte.
fn same_text(a: &str, b: &str) -> (r: bool)
    ensures
        r == (a@ == b@),
{
    let x = a.as_bytes();
    let y = b.as_bytes();
    proof {
        vstd::utf8::encode_utf8_decode_utf8(a@);
        vstd::utf8::encode_utf8_decode_utf8(b@);
    }
    if x.len() != y.len() {
        return false;
    }
    let mut i: usize = 0;
    while i < x.len()
        invariant
            x@ == a.spec_bytes(),
            y@ == b.spec_bytes(),
            x@.len() == y@.len(),
            i <= x@.len(),
            forall|j: int| 0 <= j < i ==> x@[j] == y@[j],
        decreases x.len() - i,
    {
        if x[i] != y[i] {
            return false;
        }
        i = i + 1;
    }
    assert(x@ =~= y@);
    true
}

/// The readable name of a well-known OID given in dotted form.
pub fn find(oid: &str) -> (r: Option<&'static str>)
    ensures
        match known_name(oid@) {
            Some(n) => r is Some && r.unwrap()@ == n,
            None => r is None,
        },
{
    if same_text(oid, "1.2.840.113549.1.1.11") {
        return Some("sha256WithRSAEncryption");
    }
    if same_text(oid, "1.2.840.113549.1.12.1.3") {
        return Some("pbeWithSHAAnd3-KeyTripleDES-CBC");
    }
    if same_text(oid, "1.2.840.113549.1.12.10.1.2") {
        return Some("pkcs-8ShroudedKeyBag");
    }
    if same_text(oid, "1.2.840.113549.1.12.10.1.3") {
        return Some("pkcs-12-certBag (PKCS #12 BagIds)");
    }
    if same_text(oid, "1.2.840.113549.1.7.1") {
        return Some("data (PKCS #7)");
    }
    if same_text(oid, "1.2.840.113549.1.7.6") {
        return Some("encryptedData");
    }
    if same_text(oid, "1.2.840.113549.1.9.20") {
        return Some("friendlyName");
    }
    if same_text(oid, "1.2.840.113549.1.9.21") {
        return Some("localKeyID");
    }
    if same_text(oid, "1.2.840.113549.1.9.22.1") {
        return Some("x509Certificate (for PKCS #12)");
    }
    if same_text(oid, "1.3.14.3.2.26") {
        return Some("sha1");
    }
    if same_text(oid, "2.5.4.10") {
        return Some("organizationName");
    }
    if same_text(oid, "2.5.4.6") {
        return Some("countryName");
    }
    if same_text(oid, "2.5.4.8") {
        return Some("stateOrProvinceName");
    }
    None
}

} // verus!
