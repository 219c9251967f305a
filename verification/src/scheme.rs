//! The fixed mapping from secure and aliased schemes to their plain
//! counterparts.

use crate::key_order::{lemma_key_bytes_injective, lex_order, Placement};
use crate::parsed_url::{is_plain_scheme, is_special_scheme};
use vstd::prelude::*;
use vstd::string::*;

verus! {

/// The plain counterpart of a scheme: `https` and `shttp` become `http`,
/// `sftp` becomes `ftp`, `wss` becomes `ws`. Any other scheme has none.
pub open spec fn plain_scheme(scheme: Seq<char>) -> Option<Seq<char>> {
    if scheme == "https"@ || scheme == "shttp"@ {
        Some("http"@)
    } else if scheme == "sftp"@ {
        Some("ftp"@)
    } else if scheme == "wss"@ {
        Some("ws"@)
    } else {
        None
    }
}

/// The scheme that a URL has after the downgrade: the plain counterpart of
/// its scheme where there is one, else the scheme itself.
pub open spec fn downgraded(scheme: Seq<char>) -> Seq<char> {
    match plain_scheme(scheme) {
        Some(plain) => plain,
        None => scheme,
    }
}

/// Whether two strings hold the same text.
pub fn same_text(a: &str, b: &str) -> (same: bool)
    ensures
        same == (a@ == b@),
{
    let placement = lex_order(a.as_bytes(), b.as_bytes());
    proof {
        if a.spec_bytes() == b.spec_bytes() {
            lemma_key_bytes_injective(a@, b@);
        }
    }
    placement == Placement::Same
}

/// Looks a scheme up in the mapping.
pub fn downgraded_scheme(scheme: &str) -> (plain: Option<&'static str>)
    ensures
        match plain {
            Some(p) => plain_scheme(scheme@) == Some(p@),
            None => plain_scheme(scheme@) is None,
        },
{
    if same_text(scheme, "https") || same_text(scheme, "shttp") {
        Some("http")
    } else if same_text(scheme, "sftp") {
        Some("ftp")
    } else if same_text(scheme, "wss") {
        Some("ws")
    } else {
        None
    }
}

/// The four rows of the mapping, and three schemes that it leaves alone.
pub proof fn lemma_mapping_rows()
    ensures
        plain_scheme("https"@) == Some("http"@),
        plain_scheme("shttp"@) == Some("http"@),
        plain_scheme("sftp"@) == Some("ftp"@),
        plain_scheme("wss"@) == Some("ws"@),
        plain_scheme("http"@) is None,
        plain_scheme("ftp"@) is None,
        plain_scheme("ws"@) is None,
{
    reveal_strlit("https");
    reveal_strlit("shttp");
    reveal_strlit("sftp");
    reveal_strlit("wss");
    reveal_strlit("http");
    reveal_strlit("ftp");
    reveal_strlit("ws");
    assert("http"@.len() == 4 && "ftp"@.len() == 3 && "ws"@.len() == 2);
    assert("https"@.len() == 5 && "shttp"@.len() == 5 && "wss"@.len() == 3);
    assert("sftp"@.len() == 4 && "sftp"@[0] == 's');
    assert("http"@[0] == 'h' && "ftp"@[0] == 'f' && "wss"@[0] == 'w');
    assert("https"@[0] == 'h' && "shttp"@[0] == 's');
}

/// Every scheme that the mapping yields is made of lower-case letters, is
/// shorter than the scheme it stands for, and is one that needs a host.
pub proof fn lemma_plain_scheme_shape(scheme: Seq<char>)
    requires
        plain_scheme(scheme) is Some,
    ensures
        is_plain_scheme(plain_scheme(scheme).unwrap()),
        is_special_scheme(plain_scheme(scheme).unwrap()),
        plain_scheme(scheme).unwrap().len() < scheme.len(),
{
    reveal_strlit("https");
    reveal_strlit("shttp");
    reveal_strlit("sftp");
    reveal_strlit("wss");
    reveal_strlit("http");
    reveal_strlit("ftp");
    reveal_strlit("ws");
}

/// The downgrade is idempotent: no scheme that the mapping yields is itself
/// in the mapping.
pub proof fn lemma_downgraded_is_settled(scheme: Seq<char>)
    ensures
        plain_scheme(downgraded(scheme)) is None,
        downgraded(downgraded(scheme)) == downgraded(scheme),
{
    lemma_mapping_rows();
}

} // verus!
