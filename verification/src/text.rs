//! Text utilities shared by the engine: lexicographic ordering of sequencer
//! strings, the `"null"` version-id sentinel, and ETag quoting.

use vstd::prelude::*;

verus! {

/// Lexicographic order on character sequences, comparing code points.
/// This is the order in which sequencer strings are compared.
pub open spec fn lex_lt(a: Seq<char>, b: Seq<char>) -> bool
    decreases a.len(),
{
    if b.len() == 0 {
        false
    } else if a.len() == 0 {
        true
    } else if a[0] != b[0] {
        a[0] < b[0]
    } else {
        lex_lt(a.skip(1), b.skip(1))
    }
}

/// Compare two strings in the lexicographic order `lex_lt`.
pub fn str_lex_lt(a: &str, b: &str) -> (r: bool)
    ensures
        r == lex_lt(a@, b@),
{
    let a_len = a.unicode_len();
    let b_len = b.unicode_len();
    let mut i: usize = 0;
    proof {
        assert(a@.skip(0) =~= a@);
        assert(b@.skip(0) =~= b@);
    }
    while i < a_len && i < b_len
        invariant
            i <= a_len,
            i <= b_len,
            a_len == a@.len(),
            b_len == b@.len(),
            lex_lt(a@, b@) == lex_lt(a@.skip(i as int), b@.skip(i as int)),
        decreases a_len - i,
    {
        let ca = a.get_char(i);
        let cb = b.get_char(i);
        if ca != cb {
            proof {
                assert(a@.skip(i as int)[0] == a@[i as int]);
                assert(b@.skip(i as int)[0] == b@[i as int]);
            }
            return ca < cb;
        }
        proof {
            assert(a@.skip(i as int).skip(1) =~= a@.skip(i + 1));
            assert(b@.skip(i as int).skip(1) =~= b@.skip(i + 1));
        }
        i = i + 1;
    }
    proof {
        assert(a@.skip(i as int).len() == a_len - i);
        assert(b@.skip(i as int).len() == b_len - i);
    }
    a_len < b_len
}

/// Equality test on strings, decided character by character.
pub fn str_eq(a: &str, b: &str) -> (r: bool)
    ensures
        r == (a@ == b@),
{
    let a_len = a.unicode_len();
    let b_len = b.unicode_len();
    if a_len != b_len {
        return false;
    }
    let mut i: usize = 0;
    while i < a_len
        invariant
            i <= a_len,
            a_len == a@.len(),
            a_len == b@.len(),
            forall|j: int| 0 <= j < i ==> a@[j] == b@[j],
        decreases a_len - i,
    {
        if a.get_char(i) != b.get_char(i) {
            return false;
        }
        i = i + 1;
    }
    proof {
        assert(a@ =~= b@);
    }
    true
}

/// Strict order `lex_lt` is irreflexive and asymmetric.
pub proof fn lemma_lex_lt_asym(a: Seq<char>, b: Seq<char>)
    ensures
        lex_lt(a, b) ==> !lex_lt(b, a) && a != b,
    decreases a.len(),
{
    if a.len() != 0 && b.len() != 0 && a[0] == b[0] {
        lemma_lex_lt_asym(a.skip(1), b.skip(1));
        if lex_lt(a, b) {
            assert(a != b) by {
                if a == b {
                    assert(a.skip(1) == b.skip(1));
                }
            }
        }
    }
}

/// Any two distinct character sequences are ordered one way by `lex_lt`.
pub proof fn lemma_lex_lt_connected(a: Seq<char>, b: Seq<char>)
    ensures
        a != b ==> lex_lt(a, b) || lex_lt(b, a),
    decreases a.len(),
{
    if a.len() == 0 && b.len() == 0 {
        assert(a =~= b);
    } else if a.len() != 0 && b.len() != 0 && a[0] == b[0] {
        lemma_lex_lt_connected(a.skip(1), b.skip(1));
        if a.skip(1) == b.skip(1) {
            assert(a.skip(1).len() == a.len() - 1);
            assert(b.skip(1).len() == b.len() - 1);
            assert(a.len() == b.len());
            assert forall|i: int| 0 <= i < a.len() implies a[i] == b[i] by {
                if i > 0 {
                    assert(a[i] == a.skip(1)[i - 1]);
                    assert(b[i] == b.skip(1)[i - 1]);
                }
            }
            assert(a =~= b);
        }
    }
}

/// `lex_lt` is transitive.
pub proof fn lemma_lex_lt_trans(a: Seq<char>, b: Seq<char>, c: Seq<char>)
    ensures
        lex_lt(a, b) && lex_lt(b, c) ==> lex_lt(a, c),
    decreases a.len(),
{
    if lex_lt(a, b) && lex_lt(b, c) {
        if a.len() != 0 && c.len() != 0 {
            if a[0] == b[0] && b[0] == c[0] {
                lemma_lex_lt_trans(a.skip(1), b.skip(1), c.skip(1));
            }
        }
    }
}

/// Order on optional sequencers: an absent sequencer sorts strictly before
/// any present one, and present ones compare by `lex_lt`.
pub open spec fn opt_seq_lt(a: Option<Seq<char>>, b: Option<Seq<char>>) -> bool {
    match (a, b) {
        (Option::None, Option::None) => false,
        (Option::None, Option::Some(_)) => true,
        (Option::Some(_), Option::None) => false,
        (Option::Some(x), Option::Some(y)) => lex_lt(x, y),
    }
}

/// The view of an optional string.
pub open spec fn opt_view(o: Option<String>) -> Option<Seq<char>> {
    match o {
        Option::None => Option::None,
        Option::Some(s) => Option::Some(s@),
    }
}

/// Compare optional sequencer strings in the order `opt_seq_lt`.
pub fn opt_str_lt(a: &Option<String>, b: &Option<String>) -> (r: bool)
    ensures
        r == opt_seq_lt(opt_view(*a), opt_view(*b)),
{
    match (a, b) {
        (Option::None, Option::None) => false,
        (Option::None, Option::Some(_)) => true,
        (Option::Some(_), Option::None) => false,
        (Option::Some(x), Option::Some(y)) => str_lex_lt(x.as_str(), y.as_str()),
    }
}

/// Equality test on optional strings.
pub fn opt_str_eq(a: &Option<String>, b: &Option<String>) -> (r: bool)
    ensures
        r == (opt_view(*a) == opt_view(*b)),
{
    match (a, b) {
        (Option::None, Option::None) => true,
        (Option::Some(x), Option::Some(y)) => str_eq(x.as_str(), y.as_str()),
        _ => false,
    }
}

/// `opt_seq_lt` is asymmetric.
pub proof fn lemma_opt_seq_lt_asym(a: Option<Seq<char>>, b: Option<Seq<char>>)
    ensures
        opt_seq_lt(a, b) ==> !opt_seq_lt(b, a) && a != b,
{
    if a is Some && b is Some {
        lemma_lex_lt_asym(a->0, b->0);
    }
}

/// `opt_seq_lt` orders any two distinct optional sequencers one way.
pub proof fn lemma_opt_seq_lt_connected(a: Option<Seq<char>>, b: Option<Seq<char>>)
    ensures
        a != b ==> opt_seq_lt(a, b) || opt_seq_lt(b, a),
{
    if a is Some && b is Some {
        lemma_lex_lt_connected(a->0, b->0);
    }
}

/// `opt_seq_lt` is transitive.
pub proof fn lemma_opt_seq_lt_trans(a: Option<Seq<char>>, b: Option<Seq<char>>, c: Option<
    Seq<char>,
>)
    ensures
        opt_seq_lt(a, b) && opt_seq_lt(b, c) ==> opt_seq_lt(a, c),
{
    if a is Some && b is Some && c is Some {
        lemma_lex_lt_trans(a->0, b->0, c->0);
    }
}

/// A copy of an optional string.
pub fn duplicate_opt_string(o: &Option<String>) -> (r: Option<String>)
    ensures
        r == *o,
{
    match o {
        Option::None => Option::None,
        Option::Some(s) => Option::Some(s.clone()),
    }
}

/// The sentinel version id recorded when the source supplies none.
pub open spec fn null_version_id() -> Seq<char> {
    "null"@
}

/// The default version id, the literal sentinel `"null"`.
pub fn default_version_id() -> (r: String)
    ensures
        r@ == null_version_id(),
{
    String::from_str("null")
}

/// A quoted ETag: the tag wrapped in double quotes, unless it already
/// starts and ends with one.
pub open spec fn spec_quoted(t: Seq<char>) -> Seq<char> {
    if t.len() >= 2 && t[0] == '"' && t[t.len() - 1] == '"' {
        t
    } else {
        seq!['"'] + t + seq!['"']
    }
}

/// Quote an ETag as the object store reports it in list and head output.
pub fn quote_e_tag(t: String) -> (r: String)
    ensures
        r@ == spec_quoted(t@),
{
    let len = t.as_str().unicode_len();
    if len >= 2 && t.as_str().get_char(0) == '"' && t.as_str().get_char(len - 1) == '"' {
        t
    } else {
        proof {
            reveal_strlit("\"");
        }
        let r = String::from_str("\"").concat(t.as_str()).concat("\"");
        proof {
            assert("\""@ =~= seq!['"']);
            assert(r@ =~= seq!['"'] + t@ + seq!['"']);
        }
        r
    }
}

/// The base used for a synthesized crawl sequencer when no live sequencer
/// exists for the version.
pub open spec fn crawl_default_base() -> Seq<char> {
    "000000000000000000000000000000"@
}

/// The suffix appended to a base sequencer to synthesize a crawl sequencer
/// that sorts immediately after it.
pub open spec fn crawl_suffix() -> Seq<char> {
    "-0100000000000000"@
}

/// The default base sequencer for crawl synthesis, a fixed zero-prefix string.
pub fn crawl_base_default() -> (r: String)
    ensures
        r@ == crawl_default_base(),
{
    String::from_str("000000000000000000000000000000")
}

/// Append the fixed crawl suffix to a base sequencer.
pub fn synthesized_sequencer(base: &str) -> (r: String)
    ensures
        r@ == base@ + crawl_suffix(),
{
    String::from_str(base).concat("-0100000000000000")
}

} // verus!
