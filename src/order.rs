use vstd::prelude::*;

verus! {

/// Strict lexicographic order on character sequences, by code point; a
/// proper prefix comes first.
pub open spec fn lex_lt(a: Seq<char>, b: Seq<char>) -> bool
    decreases a.len(),
{
    if a.len() == 0 {
        b.len() > 0
    } else if b.len() == 0 {
        false
    } else if a[0] != b[0] {
        a[0] < b[0]
    } else {
        lex_lt(a.drop_first(), b.drop_first())
    }
}

/// Order of two entries by kind (directories first) and then by key.
pub open spec fn key_lt(a_file: bool, a: Seq<char>, b_file: bool, b: Seq<char>) -> bool {
    (!a_file && b_file) || (a_file == b_file && lex_lt(a, b))
}

pub proof fn lemma_lex_irreflexive(a: Seq<char>)
    ensures
        !lex_lt(a, a),
    decreases a.len(),
{
    if a.len() > 0 {
        lemma_lex_irreflexive(a.drop_first());
    }
}

pub proof fn lemma_lex_transitive(a: Seq<char>, b: Seq<char>, c: Seq<char>)
    requires
        lex_lt(a, b),
        lex_lt(b, c),
    ensures
        lex_lt(a, c),
    decreases a.len(),
{
    if a.len() > 0 && b.len() > 0 && c.len() > 0 && a[0] == b[0] && b[0] == c[0] {
        lemma_lex_transitive(a.drop_first(), b.drop_first(), c.drop_first());
    }
}

pub proof fn lemma_lex_total(a: Seq<char>, b: Seq<char>)
    requires
        a != b,
    ensures
        lex_lt(a, b) || lex_lt(b, a),
    decreases a.len(),
{
    if a.len() > 0 && b.len() > 0 && a[0] == b[0] {
        if a.drop_first() == b.drop_first() {
            assert(a =~= seq![a[0]] + a.drop_first());
            assert(b =~= seq![b[0]] + b.drop_first());
        }
        lemma_lex_total(a.drop_first(), b.drop_first());
    } else if a.len() > 0 && b.len() > 0 {
        assert(a[0] != b[0]);
    } else if a.len() == 0 && b.len() == 0 {
        assert(a =~= b);
    }
}

/// An entry below `y` is also below everything that is not below `y`.
pub proof fn lemma_key_lt_le(
    xf: bool,
    x: Seq<char>,
    yf: bool,
    y: Seq<char>,
    zf: bool,
    z: Seq<char>,
)
    requires
        key_lt(xf, x, yf, y),
        !key_lt(zf, z, yf, y),
    ensures
        key_lt(xf, x, zf, z),
{
    if yf == zf && y != z {
        lemma_lex_total(y, z);
    }
    if xf == yf && yf == zf && y != z {
        lemma_lex_transitive(x, y, z);
    }
}

/// Not-below is transitive.
pub proof fn lemma_key_not_lt_chain(
    xf: bool,
    x: Seq<char>,
    yf: bool,
    y: Seq<char>,
    zf: bool,
    z: Seq<char>,
)
    requires
        !key_lt(xf, x, yf, y),
        !key_lt(yf, y, zf, z),
    ensures
        !key_lt(xf, x, zf, z),
{
    if key_lt(xf, x, zf, z) {
        lemma_key_lt_le(xf, x, zf, z, yf, y);
    }
}

pub proof fn lemma_key_asymmetric(af: bool, a: Seq<char>, bf: bool, b: Seq<char>)
    requires
        key_lt(af, a, bf, b),
    ensures
        !key_lt(bf, b, af, a),
{
    if af == bf && lex_lt(b, a) {
        lemma_lex_transitive(a, b, a);
        lemma_lex_irreflexive(a);
    }
}

/// Decides `key_lt` on two keys.
pub fn key_less(a_file: bool, a: &Vec<char>, b_file: bool, b: &Vec<char>) -> (r: bool)
    ensures
        r == key_lt(a_file, a@, b_file, b@),
{
    if a_file != b_file {
        return !a_file;
    }
    let mut i: usize = 0;
    assert(a@.skip(0) =~= a@);
    assert(b@.skip(0) =~= b@);
    while i < a.len() && i < b.len()
        invariant
            a_file == b_file,
            i <= a.len(),
            i <= b.len(),
            lex_lt(a@, b@) == lex_lt(a@.skip(i as int), b@.skip(i as int)),
        decreases a.len() - i,
    {
        if a[i] != b[i] {
            assert(a@.skip(i as int)[0] == a@[i as int]);
            assert(b@.skip(i as int)[0] == b@[i as int]);
            assert(a@.skip(i as int).len() > 0 && b@.skip(i as int).len() > 0);
            assert(lex_lt(a@.skip(i as int), b@.skip(i as int)) == (a@[i as int] < b@[i as int]));
            return a[i] < b[i];
        }
        assert(a@.skip(i as int).drop_first() =~= a@.skip(i + 1));
        assert(b@.skip(i as int).drop_first() =~= b@.skip(i + 1));
        i = i + 1;
    }
    i == a.len() && i < b.len()
}

} // verus!
