//! Keys of board entities: comparison and the canonical key of an edge.
use vstd::prelude::*;

verus! {

/// Lexicographic order on keys, character by character (code point order).
pub open spec fn key_le(a: Seq<char>, b: Seq<char>) -> bool
    decreases a.len(),
{
    if a.len() == 0 {
        true
    } else if b.len() == 0 {
        false
    } else if a[0] != b[0] {
        a[0] < b[0]
    } else {
        key_le(a.drop_first(), b.drop_first())
    }
}

/// The canonical key of the edge between the tiles keyed `a` and `b`:
/// `(x,y)` where `x` is the lexicographically smaller of the two keys.
pub open spec fn edge_key_of(a: Seq<char>, b: Seq<char>) -> Seq<char> {
    if key_le(a, b) {
        seq!['('] + a + seq![','] + b + seq![')']
    } else {
        seq!['('] + b + seq![','] + a + seq![')']
    }
}

proof fn lemma_key_le_total(a: Seq<char>, b: Seq<char>)
    ensures
        key_le(a, b) || key_le(b, a),
    decreases a.len(),
{
    if a.len() > 0 && b.len() > 0 && a[0] == b[0] {
        lemma_key_le_total(a.drop_first(), b.drop_first());
    }
}

proof fn lemma_key_le_antisymmetric(a: Seq<char>, b: Seq<char>)
    requires
        key_le(a, b),
        key_le(b, a),
    ensures
        a == b,
    decreases a.len(),
{
    if a.len() > 0 && b.len() > 0 {
        if a[0] == b[0] {
            lemma_key_le_antisymmetric(a.drop_first(), b.drop_first());
            assert(a =~= seq![a[0]] + a.drop_first());
            assert(b =~= seq![b[0]] + b.drop_first());
        } else {
            assert(a[0] != b[0]);
        }
    }
}

/// Canonical edge keys do not depend on the order of the two tiles.
pub proof fn lemma_edge_key_symmetric(a: Seq<char>, b: Seq<char>)
    ensures
        edge_key_of(a, b) == edge_key_of(b, a),
{
    lemma_key_le_total(a, b);
    if key_le(a, b) && key_le(b, a) {
        lemma_key_le_antisymmetric(a, b);
    }
}

/// The key holds no comma.
pub open spec fn comma_free(k: Seq<char>) -> bool {
    !k.contains(',')
}

/// `(x,y)` spells out `x` and `y` again where neither holds a comma.
pub proof fn lemma_pair_text_injective(x: Seq<char>, y: Seq<char>, u: Seq<char>, v: Seq<char>)
    requires
        comma_free(x),
        comma_free(u),
        seq!['('] + x + seq![','] + y + seq![')'] == seq!['('] + u + seq![','] + v + seq![')'],
    ensures
        x == u,
        y == v,
{
    let s = seq!['('] + x + seq![','] + y + seq![')'];
    let t = seq!['('] + u + seq![','] + v + seq![')'];
    let xl = x.len() as int;
    let ul = u.len() as int;
    if xl < ul {
        assert(s[xl + 1] == ',');
        assert(t[xl + 1] == u[xl]);
        assert(u.contains(u[xl]));
    } else if ul < xl {
        assert(t[ul + 1] == ',');
        assert(s[ul + 1] == x[ul]);
        assert(x.contains(x[ul]));
    }
    assert(x =~= s.subrange(1, xl + 1));
    assert(u =~= t.subrange(1, ul + 1));
    assert(y =~= s.subrange(xl + 2, s.len() - 1));
    assert(v =~= t.subrange(ul + 2, t.len() - 1));
}

/// Distinct pairs of distinct comma-free keys have distinct edge keys.
pub proof fn lemma_edge_key_injective(a: Seq<char>, b: Seq<char>, c: Seq<char>, d: Seq<char>)
    requires
        comma_free(a),
        comma_free(b),
        comma_free(c),
        comma_free(d),
        edge_key_of(a, b) == edge_key_of(c, d),
    ensures
        (a == c && b == d) || (a == d && b == c),
{
    if key_le(a, b) {
        if key_le(c, d) {
            lemma_pair_text_injective(a, b, c, d);
        } else {
            lemma_pair_text_injective(a, b, d, c);
        }
    } else {
        if key_le(c, d) {
            lemma_pair_text_injective(b, a, c, d);
        } else {
            lemma_pair_text_injective(b, a, d, c);
        }
    }
}

/// Whether `a` comes before or equals `b` in key order.
pub fn key_le_exec(a: &str, b: &str) -> (r: bool)
    ensures
        r == key_le(a@, b@),
{
    let la = a.unicode_len();
    let lb = b.unicode_len();
    let mut i: usize = 0;
    assert(a@.skip(0) =~= a@);
    assert(b@.skip(0) =~= b@);
    while i < la && i < lb
        invariant
            i <= la,
            i <= lb,
            la == a@.len(),
            lb == b@.len(),
            key_le(a@, b@) == key_le(a@.skip(i as int), b@.skip(i as int)),
        decreases la - i,
    {
        let ca = a.get_char(i);
        let cb = b.get_char(i);
        if ca != cb {
            return ca < cb;
        }
        assert(a@.skip(i as int).drop_first() =~= a@.skip(i + 1));
        assert(b@.skip(i as int).drop_first() =~= b@.skip(i + 1));
        i = i + 1;
    }
    i == la
}

/// Whether two keys are equal, character by character.
pub fn same_key(a: &str, b: &str) -> (r: bool)
    ensures
        r == (a@ == b@),
{
    let la = a.unicode_len();
    let lb = b.unicode_len();
    if la != lb {
        return false;
    }
    let mut i: usize = 0;
    while i < la
        invariant
            i <= la,
            la == a@.len(),
            lb == b@.len(),
            la == lb,
            a@.subrange(0, i as int) == b@.subrange(0, i as int),
        decreases la - i,
    {
        if a.get_char(i) != b.get_char(i) {
            return false;
        }
        assert(a@.subrange(0, i + 1) =~= a@.subrange(0, i as int).push(a@[i as int]));
        assert(b@.subrange(0, i + 1) =~= b@.subrange(0, i as int).push(b@[i as int]));
        i = i + 1;
    }
    assert(a@ =~= a@.subrange(0, la as int));
    assert(b@ =~= b@.subrange(0, lb as int));
    true
}

/// The canonical key of the edge between the tiles keyed `a` and `b`.
pub fn edge_key(a: &str, b: &str) -> (r: String)
    ensures
        r@ == edge_key_of(a@, b@),
{
    let (first, second) = if key_le_exec(a, b) {
        (a, b)
    } else {
        (b, a)
    };
    let mut key = String::new();
    key.append("(");
    key.append(first);
    key.append(",");
    key.append(second);
    key.append(")");
    proof {
        reveal_strlit("(");
        reveal_strlit(",");
        reveal_strlit(")");
    }
    key
}

} // verus!
