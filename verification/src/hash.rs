//! Content hashes.
use vstd::prelude::*;

verus! {

/// The lowercase hexadecimal BLAKE3 digest of the UTF-8 encoding of `text`.
pub uninterp spec fn blake3_hex(text: Seq<char>) -> Seq<char>;

/// Calls `blake3::hash` on the UTF-8 bytes of `value` and renders the digest
/// with `Hash::to_hex`. Trusted: the result is the named digest of the text,
/// and, as `to_hex` writes two lowercase hex digits per byte of the 32-byte
/// digest, it is 64 characters long.
#[verifier::external_body]
pub fn bytes(value: &str) -> (r: String)
    ensures
        r@ == blake3_hex(value@),
        r@.len() == 64,
{
    blake3::hash(value.as_bytes()).to_hex().to_string()
}

/// The text that a cache key digests: the tag `jevlint`, the namespace and
/// the JSON text of the entry's identity, each followed by a NUL but the last.
pub open spec fn key_text(namespace: Seq<char>, identity_json: Seq<char>) -> Seq<char> {
    seq!['j', 'e', 'v', 'l', 'i', 'n', 't', '\0'] + namespace + seq!['\0'] + identity_json
}

/// The cache key of an entry, from its namespace and the JSON text of its
/// identity.
pub fn key(namespace: &str, identity_json: &str) -> (r: String)
    ensures
        r@ == blake3_hex(key_text(namespace@, identity_json@)),
        r@.len() == 64,
{
    let mut text = String::new();
    crate::text::push_char(&mut text, 'j');
    crate::text::push_char(&mut text, 'e');
    crate::text::push_char(&mut text, 'v');
    crate::text::push_char(&mut text, 'l');
    crate::text::push_char(&mut text, 'i');
    crate::text::push_char(&mut text, 'n');
    crate::text::push_char(&mut text, 't');
    crate::text::push_char(&mut text, '\0');
    crate::text::push_str(&mut text, namespace);
    crate::text::push_char(&mut text, '\0');
    crate::text::push_str(&mut text, identity_json);
    proof {
        assert(text@ =~= key_text(namespace@, identity_json@));
    }
    bytes(text.as_str())
}

/// The digested text tells its parts apart: for namespaces without a NUL,
/// equal texts come from equal namespaces and equal identities, so distinct
/// identities are never framed into the same text.
pub proof fn lemma_key_text_unambiguous(n1: Seq<char>, j1: Seq<char>, n2: Seq<char>, j2: Seq<char>)
    requires
        !n1.contains('\0'),
        !n2.contains('\0'),
        key_text(n1, j1) == key_text(n2, j2),
    ensures
        n1 == n2,
        j1 == j2,
{
    let t1 = key_text(n1, j1);
    let t2 = key_text(n2, j2);
    if n1.len() < n2.len() {
        assert(t1[8 + n1.len() as int] == '\0');
        assert(t2[8 + n1.len() as int] == n2[n1.len() as int]);
        assert(n2.contains(n2[n1.len() as int]));
    } else if n2.len() < n1.len() {
        assert(t2[8 + n2.len() as int] == '\0');
        assert(t1[8 + n2.len() as int] == n1[n2.len() as int]);
        assert(n1.contains(n1[n2.len() as int]));
    } else {
        assert(n1 =~= t1.subrange(8, 8 + n1.len() as int));
        assert(n2 =~= t2.subrange(8, 8 + n2.len() as int));
        assert(j1 =~= t1.skip(9 + n1.len() as int));
        assert(j2 =~= t2.skip(9 + n2.len() as int));
    }
}

} // verus!
