//! Derivation of instance identifiers from display names.
//!
//! The identifier of an instance is its display name lowercased, with every
//! space replaced by an underscore.

use vstd::prelude::*;

verus! {

/// The sequence of characters that `str::to_lowercase` produces for `s`.
/// The result depends on the characters of `s` alone.
pub uninterp spec fn lowered(s: Seq<char>) -> Seq<char>;

/// Relies on `str::to_lowercase`: the lowercase mapping of the Unicode
/// character database, applied to the characters of `s` alone.
#[verifier::external_body]
fn to_lowercase_str(s: &str) -> (r: String)
    ensures
        r@ == lowered(s@),
{
    s.to_lowercase()
}

/// `s` with every space replaced by an underscore.
pub open spec fn underscored(s: Seq<char>) -> Seq<char> {
    s.map(|_i: int, c: char| if c == ' ' { '_' } else { c })
}

/// The identifier derived from the display name `s`: the lowercase form of
/// `s` with every space replaced by an underscore.
pub open spec fn spec_derive_identifier(s: Seq<char>) -> Seq<char> {
    underscored(lowered(s))
}

/// Derives the registry identifier for the display name `name`.
pub fn derive_identifier(name: &str) -> (r: String)
    ensures
        r@ == spec_derive_identifier(name@),
{
    let low = to_lowercase_str(name);
    let low_str = low.as_str();
    let n = low_str.unicode_len();
    let mut out: Vec<char> = Vec::new();
    let mut i: usize = 0;
    while i < n
        invariant
            n == low@.len(),
            low_str@ == low@,
            i <= n,
            out@ == underscored(low@).take(i as int),
        decreases n - i,
    {
        let c = low_str.get_char(i);
        if c == ' ' {
            out.push('_');
        } else {
            out.push(c);
        }
        proof {
            assert(out@ =~= underscored(low@).take(i as int + 1));
        }
        i = i + 1;
    }
    proof {
        assert(underscored(low@).take(n as int) =~= underscored(low@));
    }
    crate::json::string_from_chars(&out)
}

/// Replacing spaces is idempotent: doing it to an already underscored
/// sequence changes nothing.
pub proof fn lemma_underscored_idempotent(s: Seq<char>)
    ensures
        underscored(underscored(s)) == underscored(s),
{
    assert(underscored(underscored(s)) =~= underscored(s));
}

/// Identifier derivation is idempotent once its result is already in
/// lowercase form: deriving again from a derived identifier returns it
/// unchanged. (A derived identifier never contains a space, so only the
/// lowercase condition is needed.)
pub proof fn lemma_derive_identifier_idempotent(s: Seq<char>)
    requires
        lowered(spec_derive_identifier(s)) == spec_derive_identifier(s),
    ensures
        spec_derive_identifier(spec_derive_identifier(s)) == spec_derive_identifier(s),
{
    lemma_underscored_idempotent(lowered(s));
}

} // verus!
