use vstd::prelude::*;
use vstd::string::*;

verus! {

/// The order in which names are kept: lexicographic by characters, which is
/// the order `String`'s `Ord` gives (UTF-8 byte order agrees with code point order).
pub open spec fn name_lt(a: Seq<char>, b: Seq<char>) -> bool
    decreases a.len(),
{
    if a.len() == 0 {
        b.len() > 0
    } else if b.len() == 0 {
        false
    } else if a[0] != b[0] {
        (a[0] as int) < (b[0] as int)
    } else {
        name_lt(a.drop_first(), b.drop_first())
    }
}

/// No name is before itself.
pub proof fn lemma_name_lt_irreflexive(a: Seq<char>)
    ensures
        !name_lt(a, a),
    decreases a.len(),
{
    if a.len() > 0 {
        lemma_name_lt_irreflexive(a.drop_first());
    }
}

/// Of two different names, exactly one comes first.
pub proof fn lemma_name_lt_total(a: Seq<char>, b: Seq<char>)
    ensures
        a != b ==> (name_lt(a, b) || name_lt(b, a)),
        !(name_lt(a, b) && name_lt(b, a)),
    decreases a.len(),
{
    if a.len() > 0 && b.len() > 0 {
        lemma_name_lt_total(a.drop_first(), b.drop_first());
        if a[0] == b[0] && a.drop_first() == b.drop_first() {
            assert(a =~= seq![a[0]] + a.drop_first());
            assert(b =~= seq![b[0]] + b.drop_first());
        }
    } else if a.len() == 0 && b.len() == 0 {
        assert(a =~= b);
    }
}

/// The order on names is transitive.
pub proof fn lemma_name_lt_transitive(a: Seq<char>, b: Seq<char>, c: Seq<char>)
    requires
        name_lt(a, b),
        name_lt(b, c),
    ensures
        name_lt(a, c),
    decreases a.len(),
{
    if a.len() > 0 && b.len() > 0 && c.len() > 0 && a[0] == b[0] && b[0] == c[0] {
        lemma_name_lt_transitive(a.drop_first(), b.drop_first(), c.drop_first());
    }
}

/// How two names compare.
#[derive(Clone, Copy, Debug, PartialEq, Eq, Structural)]
pub enum NameOrder {
    Less,
    Equal,
    Greater,
}

proof fn lemma_name_lt_skip(a: Seq<char>, b: Seq<char>, i: int)
    requires
        0 <= i <= a.len(),
        i <= b.len(),
        a.take(i) == b.take(i),
    ensures
        name_lt(a, b) == name_lt(a.skip(i), b.skip(i)),
    decreases i,
{
    if i > 0 {
        assert(a[0] == a.take(i)[0]);
        assert(b[0] == b.take(i)[0]);
        assert(a.drop_first().take(i - 1) =~= a.take(i).drop_first());
        assert(b.drop_first().take(i - 1) =~= b.take(i).drop_first());
        lemma_name_lt_skip(a.drop_first(), b.drop_first(), i - 1);
        assert(a.drop_first().skip(i - 1) =~= a.skip(i));
        assert(b.drop_first().skip(i - 1) =~= b.skip(i));
    } else {
        assert(a.skip(0) =~= a);
        assert(b.skip(0) =~= b);
    }
}

/// Compares two names character by character.
pub fn compare_names(a: &String, b: &String) -> (r: NameOrder)
    ensures
        r == NameOrder::Less <==> name_lt(a@, b@),
        r == NameOrder::Equal <==> a@ == b@,
        r == NameOrder::Greater <==> name_lt(b@, a@),
{
    proof {
        lemma_name_lt_total(a@, b@);
        lemma_name_lt_irreflexive(a@);
    }
    let sa = a.as_str();
    let sb = b.as_str();
    let la = sa.unicode_len();
    let lb = sb.unicode_len();
    let mut i: usize = 0;
    while i < la && i < lb
        invariant
            sa@ == a@,
            sb@ == b@,
            la == a@.len(),
            lb == b@.len(),
            i <= la,
            i <= lb,
            a@.take(i as int) == b@.take(i as int),
        decreases la - i,
    {
        let ca = sa.get_char(i);
        let cb = sb.get_char(i);
        if ca != cb {
            proof {
                lemma_name_lt_skip(a@, b@, i as int);
                lemma_name_lt_skip(b@, a@, i as int);
                assert(a@.skip(i as int)[0] == ca);
                assert(b@.skip(i as int)[0] == cb);
                assert(a@ != b@);
            }
            if ca < cb {
                return NameOrder::Less;
            } else {
                return NameOrder::Greater;
            }
        }
        assert(a@.take(i + 1) =~= a@.take(i as int).push(ca));
        assert(b@.take(i + 1) =~= b@.take(i as int).push(cb));
        i = i + 1;
    }
    proof {
        lemma_name_lt_skip(a@, b@, i as int);
        lemma_name_lt_skip(b@, a@, i as int);
    }
    if la == lb {
        assert(a@ =~= a@.take(i as int));
        assert(b@ =~= b@.take(i as int));
        NameOrder::Equal
    } else if la < lb {
        assert(a@.skip(i as int).len() == 0);
        assert(a@.take(i as int) =~= a@);
        NameOrder::Less
    } else {
        assert(b@.skip(i as int).len() == 0);
        assert(b@.take(i as int) =~= b@);
        NameOrder::Greater
    }
}


/// Names that agree up to a place where their characters differ are ordered
/// by those characters' code points, whatever follows; a proper prefix comes
/// first. Together this is `String`'s order.
pub proof fn law_name_order(p: Seq<char>, x: char, y: char, r: Seq<char>, s: Seq<char>)
    ensures
        x != y ==> (name_lt(p + seq![x] + r, p + seq![y] + s) <==> (x as int) < (y as int)),
        x != y ==> (name_lt(seq![x], seq![y]) <==> (x as int) < (y as int)),
        name_lt(p, p + seq![y] + s),
        !name_lt(p + seq![y] + s, p),
    decreases p.len(),
{
    if p.len() == 0 {
        assert(p + seq![x] + r =~= seq![x] + r);
        assert(p + seq![y] + s =~= seq![y] + s);
        assert((p + seq![y] + s)[0] == y);
    } else {
        law_name_order(p.drop_first(), x, y, r, s);
        assert((p + seq![x] + r).drop_first() =~= p.drop_first() + seq![x] + r);
        assert((p + seq![y] + s).drop_first() =~= p.drop_first() + seq![y] + s);
        assert((p + seq![x] + r)[0] == p[0]);
        assert((p + seq![y] + s)[0] == p[0]);
    }
    assert(seq![x] =~= Seq::<char>::empty() + seq![x] + Seq::<char>::empty());
    assert(seq![y] =~= Seq::<char>::empty() + seq![y] + Seq::<char>::empty());
    lemma_name_order_empty_prefix(x, y);
}

proof fn lemma_name_order_empty_prefix(x: char, y: char)
    ensures
        x != y ==> (name_lt(seq![x], seq![y]) <==> (x as int) < (y as int)),
{
    assert(seq![x][0] == x);
    assert(seq![y][0] == y);
}

} // verus!
