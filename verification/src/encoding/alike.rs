//! Encodings that do the same.

use vstd::prelude::*;

use super::duplicate::{self, DuplicateKeyEncoding};
use super::registry;
use super::{KeyEncoding, SharedEncoding};

verus! {

/// Whether two encodings order, digest and rebuild keys the same way.
pub open spec fn alike<A: KeyEncoding + ?Sized, B: KeyEncoding + ?Sized>(a: &A, b: &B) -> bool {
    &&& forall|k: Seq<u8>| #[trigger] b.accepts(k) == a.accepts(k)
    &&& forall|x: Seq<u8>, y: Seq<u8>| #[trigger] b.sign(x, y) == a.sign(x, y)
    &&& forall|k: Seq<u8>| #[trigger] b.digest_of(k) == a.digest_of(k)
    &&& b.exact() == a.exact()
    &&& forall|k: Seq<u8>, d: u64| #[trigger] b.admits(k, d) == a.admits(k, d)
    &&& forall|d: u64| #[trigger] b.rebuilt(d) == a.rebuilt(d)
    &&& b.width() == a.width()
    &&& b.rebuilt_len() == a.rebuilt_len()
    &&& b.lexicographic() == a.lexicographic()
    &&& forall|k: Seq<u8>| #[trigger] b.well_formed(k) == a.well_formed(k)
}

/// Behaving like an encoding is doing the same.
pub proof fn lemma_behaves<E: KeyEncoding>(s: SharedEncoding, e: E)
    requires
        s.behaves_like(e),
    ensures
        alike(&e, &**s.inner),
{
}

/// Two encodings that behave like one do the same.
pub proof fn lemma_both<E: KeyEncoding>(a: SharedEncoding, b: SharedEncoding, e: E)
    requires
        a.behaves_like(e),
        b.behaves_like(e),
    ensures
        alike(&**a.inner, &**b.inner),
{
    assert forall|x: Seq<u8>, y: Seq<u8>| #[trigger] b.inner.sign(x, y) == a.inner.sign(x, y) by {
        assert(a.inner.sign(x, y) == e.sign(x, y));
    }
    assert forall|k: Seq<u8>| #[trigger] b.inner.accepts(k) == a.inner.accepts(k) by {
        assert(a.inner.accepts(k) == e.accepts(k));
    }
    assert forall|k: Seq<u8>| #[trigger] b.inner.digest_of(k) == a.inner.digest_of(k) by {
        assert(a.inner.digest_of(k) == e.digest_of(k));
    }
    assert forall|k: Seq<u8>, d: u64| #[trigger] b.inner.admits(k, d) == a.inner.admits(k, d) by {
        assert(a.inner.admits(k, d) == e.admits(k, d));
    }
    assert forall|d: u64| #[trigger] b.inner.rebuilt(d) == a.inner.rebuilt(d) by {
        assert(a.inner.rebuilt(d) == e.rebuilt(d));
    }
    assert forall|k: Seq<u8>| #[trigger] b.inner.well_formed(k) == a.inner.well_formed(k) by {
        assert(a.inner.well_formed(k) == e.well_formed(k));
    }
}

/// An encoding that does what a lawful one does is lawful.
pub proof fn lemma_lawful<A: KeyEncoding + ?Sized, B: KeyEncoding + ?Sized>(e: &A, s: &B)
    requires
        alike(e, s),
        super::lawful(e),
    ensures
        super::lawful(s),
{
    assert forall|a: Seq<u8>, b: Seq<u8>| s.accepts(a) && s.accepts(b) implies (
    #[trigger] s.sign(a, b) < 0 <==> s.sign(b, a) > 0) by {
        assert(e.sign(a, b) < 0 <==> e.sign(b, a) > 0);
    }
    assert forall|a: Seq<u8>, b: Seq<u8>, c: Seq<u8>|
        #![trigger s.sign(a, b), s.sign(b, c)]
        s.accepts(a) && s.accepts(b) && s.accepts(c) && s.sign(a, b) <= 0
            && s.sign(b, c) <= 0 implies s.sign(a, c) <= 0 && (s.sign(a, c) == 0
        ==> s.sign(a, b) == 0 && s.sign(b, c) == 0) by {
        assert(e.sign(a, b) <= 0 && e.sign(b, c) <= 0);
    }
    assert forall|a: Seq<u8>, b: Seq<u8>|
        s.accepts(a) && s.accepts(b) && #[trigger] s.sign(a, b)
            <= 0 implies s.digest_of(a) <= s.digest_of(b) by {
        assert(e.sign(a, b) <= 0);
    }
    assert forall|a: Seq<u8>| #[trigger] s.accepts(a) implies s.sign(a, a) == 0
        && s.admits(a, s.digest_of(a)) by {
        assert(e.accepts(a));
    }
    if s.exact() {
        assert forall|a: Seq<u8>, b: Seq<u8>|
            s.accepts(a) && s.accepts(b) && s.digest_of(a) == s.digest_of(
                b,
            ) implies #[trigger] s.sign(a, b) == 0 by {
            assert(e.sign(a, b) == 0);
        }
        assert forall|a: Seq<u8>| #[trigger] s.accepts(a) implies s.rebuilt(
            s.digest_of(a),
        ) == Some(a) by {
            assert(e.accepts(a));
        }
    }
    if s.lexicographic() {
        assert forall|a: Seq<u8>, b: Seq<u8>|
            s.accepts(a) && s.accepts(b) implies #[trigger] s.sign(a, b)
            == super::order::lex(a, b) by {
            assert(e.sign(a, b) == super::order::lex(a, b));
        }
    }
}

/// Two encodings that a registry resolves one id to do the same.
pub proof fn lemma_resolved(
    encodings: Map<Seq<char>, SharedEncoding>,
    id: Seq<char>,
    a: SharedEncoding,
    b: SharedEncoding,
)
    requires
        crate::index::resolves(encodings, id, a),
        crate::index::resolves(encodings, id, b),
    ensures
        alike(&**a.inner, &**b.inner),
{
    if registry::is_builtin(id) {
        if id == "i64"@ {
            lemma_both(a, b, super::Int64Encoding);
        } else if id == "ascii"@ {
            lemma_both(a, b, super::AsciiEncoding);
        } else if id == "uuidv7"@ {
            lemma_both(a, b, super::Uuidv7Encoding);
        } else {
            lemma_both(a, b, super::UlidEncoding);
        }
    }
}

/// Composite encodings over encodings that do the same do the same.
pub proof fn lemma_duplicates(
    a: SharedEncoding,
    b: SharedEncoding,
    x: SharedEncoding,
    y: SharedEncoding,
)
    requires
        alike(&**x.inner, &**y.inner),
        a.behaves_like(DuplicateKeyEncoding { source: x }),
        b.behaves_like(DuplicateKeyEncoding { source: y }),
    ensures
        alike(&**a.inner, &**b.inner),
{
    let (d, e) = (DuplicateKeyEncoding { source: x }, DuplicateKeyEncoding { source: y });
    assert forall|k: Seq<u8>| #[trigger] b.inner.accepts(k) == a.inner.accepts(k) by {
        assert(a.inner.accepts(k) == d.accepts(k));
        assert(y.inner.accepts(duplicate::source_part(k)) == x.inner.accepts(
            duplicate::source_part(k),
        ));
    }
    assert forall|p: Seq<u8>, q: Seq<u8>| #[trigger] b.inner.sign(p, q) == a.inner.sign(p, q) by {
        assert(a.inner.sign(p, q) == d.sign(p, q));
        assert(y.inner.sign(duplicate::source_part(p), duplicate::source_part(q))
            == x.inner.sign(duplicate::source_part(p), duplicate::source_part(q)));
    }
    assert forall|k: Seq<u8>| #[trigger] b.inner.digest_of(k) == a.inner.digest_of(k) by {
        assert(a.inner.digest_of(k) == d.digest_of(k));
    }
    assert forall|k: Seq<u8>, g: u64| #[trigger] b.inner.admits(k, g) == a.inner.admits(k, g) by {
        assert(a.inner.admits(k, g) == d.admits(k, g));
        assert(y.inner.accepts(k) == x.inner.accepts(k));
        assert(y.inner.digest_of(k) == x.inner.digest_of(k));
        assert(b.inner.accepts(k) == a.inner.accepts(k));
        assert(b.inner.digest_of(k) == a.inner.digest_of(k));
        assert(a.inner.accepts(k) == d.accepts(k));
        assert(b.inner.accepts(k) == e.accepts(k));
        assert(a.inner.digest_of(k) == d.digest_of(k));
        assert(b.inner.digest_of(k) == e.digest_of(k));
    }
    assert forall|g: u64| #[trigger] b.inner.rebuilt(g) == a.inner.rebuilt(g) by {
        assert(a.inner.rebuilt(g) == d.rebuilt(g));
        assert(y.inner.rebuilt(g) == x.inner.rebuilt(g));
    }
    assert forall|k: Seq<u8>| #[trigger] b.inner.well_formed(k) == a.inner.well_formed(k) by {
        assert(a.inner.well_formed(k) == d.well_formed(k));
    }
}

} // verus!
