//! Edge labels and the rule that decides whether two of them may abut.
//!
//! A label is a string of tokens separated by hyphens: a shape, a class
//! and, optionally, a flag. The shapes are `i` (matches itself) and the
//! pair `q` / `p` (each matches the other). A flag that begins with `u_`
//! is a uniqueness flag: two edges that carry the same one never fit.

use vstd::prelude::*;

verus! {

/// The tokens of a label: the maximal runs of characters between hyphens.
/// A label with `k` hyphens has `k + 1` tokens, some of which may be empty.
pub open spec fn tokens(s: Seq<char>) -> Seq<Seq<char>>
    decreases s.len(),
{
    if s.len() == 0 {
        seq![Seq::<char>::empty()]
    } else {
        let before = tokens(s.drop_last());
        if s.last() == '-' {
            before.push(Seq::<char>::empty())
        } else {
            before.drop_last().push(before.last().push(s.last()))
        }
    }
}

/// A token is a uniqueness flag when it begins with `u_`.
pub open spec fn is_unique_flag(t: Seq<char>) -> bool {
    t.len() >= 2 && t[0] == 'u' && t[1] == '_'
}

/// Two tokenized labels collide when both carry a third token, the two are
/// equal, and that token is a uniqueness flag.
pub open spec fn flags_collide(ta: Seq<Seq<char>>, tb: Seq<Seq<char>>) -> bool {
    ta.len() > 2 && tb.len() > 2 && is_unique_flag(ta[2]) && ta[2] == tb[2]
}

/// The shapes of two edges agree: both are `i`, or one is `q` and the other `p`.
pub open spec fn shapes_pair(sa: Seq<char>, sb: Seq<char>) -> bool {
    ||| (sa == seq!['i'] && sb == seq!['i'])
    ||| (sa == seq!['q'] && sb == seq!['p'])
    ||| (sa == seq!['p'] && sb == seq!['q'])
}

/// Whether an edge labelled `a` may abut an edge labelled `b`.
pub open spec fn fits_spec(a: Seq<char>, b: Seq<char>) -> bool {
    let ta = tokens(a);
    let tb = tokens(b);
    &&& ta.len() >= 2
    &&& tb.len() >= 2
    &&& !flags_collide(ta, tb)
    &&& shapes_pair(ta[0], tb[0])
    &&& ta[1] == tb[1]
}

/// The views of a vector of character vectors.
pub open spec fn token_views(v: Seq<Vec<char>>) -> Seq<Seq<char>> {
    v.map_values(|t: Vec<char>| t@)
}

/// Splits a label at its hyphens.
pub fn split_label(s: &str) -> (out: Vec<Vec<char>>)
    ensures
        token_views(out@) == tokens(s@),
{
    let mut out: Vec<Vec<char>> = Vec::new();
    let mut cur: Vec<char> = Vec::new();
    assert(s@.take(0) =~= Seq::<char>::empty());
    assert(token_views(out@).push(cur@) =~= tokens(s@.take(0)));
    for c in it: s.chars()
        invariant
            it.seq() == s@,
            token_views(out@).push(cur@) == tokens(s@.take(it.index() as int)),
    {
        let ghost prefix = s@.take(it.index() as int);
        let ghost next = s@.take(it.index() + 1);
        assert(next.drop_last() =~= prefix);
        assert(next.last() == c);
        let ghost old_out = token_views(out@);
        let ghost old_cur = cur@;
        if c == '-' {
            out.push(cur);
            cur = Vec::new();
            assert(token_views(out@) =~= old_out.push(old_cur));
            assert(token_views(out@).push(cur@) =~= tokens(next));
        } else {
            cur.push(c);
            assert(old_out.push(old_cur).drop_last() =~= old_out);
            assert(token_views(out@).push(cur@) =~= tokens(next));
        }
    }
    assert(s@.take(s@.len() as int) =~= s@);
    let ghost before = token_views(out@);
    let ghost last = cur@;
    out.push(cur);
    assert(token_views(out@) =~= before.push(last));
    out
}

/// Whether two character vectors hold the same characters.
pub fn same_chars(a: &Vec<char>, b: &Vec<char>) -> (r: bool)
    ensures
        r == (a@ == b@),
{
    if a.len() != b.len() {
        return false;
    }
    let mut i: usize = 0;
    while i < a.len()
        invariant
            i <= a.len(),
            a.len() == b.len(),
            forall|k: int| 0 <= k < i ==> a@[k] == b@[k],
        decreases a.len() - i,
    {
        if a[i] != b[i] {
            return false;
        }
        i += 1;
    }
    assert(a@ =~= b@);
    true
}

/// Whether a token is the single character `c`.
fn is_shape(t: &Vec<char>, c: char) -> (r: bool)
    ensures
        r == (t@ == seq![c]),
{
    let r = t.len() == 1 && t[0] == c;
    assert(r ==> t@ =~= seq![c]);
    assert(t@ == seq![c] ==> t@.len() == 1 && t@[0] == c);
    r
}

/// Whether an edge labelled `a` may abut an edge labelled `b`.
///
/// A label with fewer than two tokens fits nothing. Two labels that carry
/// the same uniqueness flag do not fit. Otherwise they fit when their
/// classes are equal and their shapes are `i` and `i`, or `q` and `p` in
/// either order.
pub fn fits(a: &str, b: &str) -> (r: bool)
    ensures
        r == fits_spec(a@, b@),
{
    let av = split_label(a);
    let bv = split_label(b);
    if av.len() < 2 || bv.len() < 2 {
        return false;
    }
    proof {
        assert(token_views(av@)[0] == av@[0]@);
        assert(token_views(av@)[1] == av@[1]@);
        assert(token_views(bv@)[0] == bv@[0]@);
        assert(token_views(bv@)[1] == bv@[1]@);
    }
    if av.len() > 2 && bv.len() > 2 {
        proof {
            assert(token_views(av@)[2] == av@[2]@);
            assert(token_views(bv@)[2] == bv@[2]@);
        }
        let fa = &av[2];
        let fb = &bv[2];
        if fa.len() >= 2 && fa[0] == 'u' && fa[1] == '_' && same_chars(fa, fb) {
            return false;
        }
    }
    if !same_chars(&av[1], &bv[1]) {
        return false;
    }
    let ai = is_shape(&av[0], 'i');
    let bi = is_shape(&bv[0], 'i');
    let aq = is_shape(&av[0], 'q');
    let bq = is_shape(&bv[0], 'q');
    let ap = is_shape(&av[0], 'p');
    let bp = is_shape(&bv[0], 'p');
    (ai && bi) || (aq && bp) || (ap && bq)
}

/// The label with the one-character shape `shape`, a hyphen, and then `rest`:
/// the class and, after another hyphen, whatever follows it.
pub open spec fn label(shape: char, rest: Seq<char>) -> Seq<char> {
    seq![shape] + seq!['-'] + rest
}

/// Whether the first token after the class in `rest` is a uniqueness flag.
pub open spec fn has_unique_flag(rest: Seq<char>) -> bool {
    tokens(rest).len() >= 2 && is_unique_flag(tokens(rest)[1])
}

/// Whether `x` and `y`, each a class and whatever follows it, carry the
/// same uniqueness flag.
pub open spec fn same_unique_flag(x: Seq<char>, y: Seq<char>) -> bool {
    has_unique_flag(x) && tokens(y).len() >= 2 && tokens(x)[1] == tokens(y)[1]
}

/// Every label has at least one token.
pub proof fn lemma_tokens_nonempty(s: Seq<char>)
    ensures
        tokens(s).len() >= 1,
    decreases s.len(),
{
    if s.len() > 0 {
        lemma_tokens_nonempty(s.drop_last());
    }
}

/// The tokens of two labels joined by a hyphen are the tokens of the first
/// followed by the tokens of the second.
pub proof fn lemma_tokens_join(a: Seq<char>, b: Seq<char>)
    ensures
        tokens(a + seq!['-'] + b) == tokens(a) + tokens(b),
    decreases b.len(),
{
    let s = a + seq!['-'] + b;
    if b.len() == 0 {
        assert(s.drop_last() =~= a);
        assert(tokens(s) =~= tokens(a) + tokens(b));
    } else {
        let front = b.drop_last();
        assert(s.drop_last() =~= a + seq!['-'] + front);
        lemma_tokens_join(a, front);
        lemma_tokens_nonempty(front);
        let before = tokens(a) + tokens(front);
        assert(before.last() == tokens(front).last());
        assert(before.drop_last() =~= tokens(a) + tokens(front).drop_last());
        assert(tokens(s) =~= tokens(a) + tokens(b));
    }
}

/// The tokens of a label made of a shape and a rest: the shape, then the
/// tokens of the rest.
pub proof fn lemma_label_tokens(shape: char, rest: Seq<char>)
    requires
        shape != '-',
    ensures
        tokens(label(shape, rest)) == seq![seq![shape]] + tokens(rest),
        tokens(label(shape, rest)).len() >= 2,
        tokens(label(shape, rest))[0] == seq![shape],
        tokens(label(shape, rest))[1] == tokens(rest)[0],
        tokens(label(shape, rest)).len() > 2 <==> tokens(rest).len() >= 2,
        tokens(rest).len() >= 2 ==> tokens(label(shape, rest))[2] == tokens(rest)[1],
{
    lemma_tokens_join(seq![shape], rest);
    lemma_tokens_nonempty(rest);
    let one = seq![shape];
    assert(one.drop_last() =~= Seq::<char>::empty());
    reveal_with_fuel(tokens, 2);
    assert(tokens(one) =~= seq![seq![shape]]);
}

/// Fitting does not depend on the order of the two labels.
pub proof fn lemma_fits_symmetric(a: Seq<char>, b: Seq<char>)
    ensures
        fits_spec(a, b) == fits_spec(b, a),
{
}

/// A label with fewer than two tokens fits no label.
pub proof fn lemma_malformed_fits_nothing(a: Seq<char>, b: Seq<char>)
    requires
        tokens(a).len() < 2 || tokens(b).len() < 2,
    ensures
        !fits_spec(a, b),
{
}

/// An `i` edge fits an `i` edge of the same class and the same rest, unless
/// the rest carries a uniqueness flag.
pub proof fn lemma_symmetric_match(x: Seq<char>)
    requires
        !has_unique_flag(x),
    ensures
        fits_spec(label('i', x), label('i', x)),
{
    lemma_label_tokens('i', x);
}

/// A `q` edge and a `p` edge of the same class and the same rest fit, in
/// either order, unless the rest carries a uniqueness flag.
pub proof fn lemma_connector_match(x: Seq<char>)
    requires
        !has_unique_flag(x),
    ensures
        fits_spec(label('q', x), label('p', x)),
        fits_spec(label('p', x), label('q', x)),
{
    lemma_label_tokens('q', x);
    lemma_label_tokens('p', x);
}

/// Two `i` edges do not fit when their classes differ, or when they carry
/// the same uniqueness flag.
pub proof fn lemma_symmetric_mismatch(x: Seq<char>, y: Seq<char>)
    requires
        x != y,
        tokens(x)[0] != tokens(y)[0] || same_unique_flag(x, y),
    ensures
        !fits_spec(label('i', x), label('i', y)),
{
    lemma_label_tokens('i', x);
    lemma_label_tokens('i', y);
}

/// A `q` edge does not fit a `q` edge, nor a `p` edge a `p` edge.
pub proof fn lemma_same_connector_mismatch(x: Seq<char>)
    ensures
        !fits_spec(label('q', x), label('q', x)),
        !fits_spec(label('p', x), label('p', x)),
{
    lemma_label_tokens('q', x);
    lemma_label_tokens('p', x);
    let q = seq!['q'];
    let p = seq!['p'];
    let i = seq!['i'];
    assert(q[0] != p[0] && q[0] != i[0] && p[0] != i[0]);
}

/// A `q` edge and a `p` edge do not fit when their classes differ, or when
/// they carry the same uniqueness flag.
pub proof fn lemma_connector_mismatch(x: Seq<char>, y: Seq<char>)
    requires
        x != y,
        tokens(x)[0] != tokens(y)[0] || same_unique_flag(x, y),
    ensures
        !fits_spec(label('q', x), label('p', y)),
{
    lemma_label_tokens('q', x);
    lemma_label_tokens('p', y);
}

/// Two labels that carry the same uniqueness flag do not fit, whatever
/// their shapes and classes.
pub proof fn lemma_unique_collision(a: Seq<char>, b: Seq<char>)
    requires
        tokens(a).len() > 2,
        tokens(b).len() > 2,
        is_unique_flag(tokens(a)[2]),
        tokens(a)[2] == tokens(b)[2],
    ensures
        !fits_spec(a, b),
{
}

} // verus!
