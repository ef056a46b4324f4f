use vstd::prelude::*;
use vstd::string::StrSliceExecFns;

verus! {

/// Lexicographic order on characters, by code point.
pub open spec fn lex_lt(a: Seq<char>, b: Seq<char>) -> bool
    decreases a.len(),
{
    if a.len() == 0 || b.len() == 0 {
        a.len() == 0 && b.len() > 0
    } else if a[0] == b[0] {
        lex_lt(a.drop_first(), b.drop_first())
    } else {
        a[0] < b[0]
    }
}

/// Positions are sequence numbers written in decimal without leading zeros,
/// so a shorter one comes first, and among those of one length the
/// lexicographic order is the numeric one.
pub open spec fn position_lt(a: Seq<char>, b: Seq<char>) -> bool {
    a.len() < b.len() || (a.len() == b.len() && lex_lt(a, b))
}

pub open spec fn position_le(a: Seq<char>, b: Seq<char>) -> bool {
    position_lt(a, b) || a == b
}

pub proof fn lemma_lex_lt_transitive(a: Seq<char>, b: Seq<char>, c: Seq<char>)
    requires
        lex_lt(a, b),
        lex_lt(b, c),
    ensures
        lex_lt(a, c),
    decreases a.len(),
{
    if a.len() > 0 && b.len() > 0 && c.len() > 0 && a[0] == b[0] && b[0] == c[0] {
        lemma_lex_lt_transitive(a.drop_first(), b.drop_first(), c.drop_first());
    }
}

pub proof fn lemma_lex_lt_asymmetric(a: Seq<char>, b: Seq<char>)
    ensures
        !(lex_lt(a, b) && lex_lt(b, a)),
    decreases a.len(),
{
    if a.len() > 0 && b.len() > 0 && a[0] == b[0] {
        lemma_lex_lt_asymmetric(a.drop_first(), b.drop_first());
    }
}

pub proof fn lemma_lex_lt_total(a: Seq<char>, b: Seq<char>)
    ensures
        lex_lt(a, b) || lex_lt(b, a) || a == b,
    decreases a.len(),
{
    if a.len() > 0 && b.len() > 0 {
        if a[0] == b[0] {
            lemma_lex_lt_total(a.drop_first(), b.drop_first());
            if a.drop_first() == b.drop_first() {
                assert(a.drop_first().len() == b.drop_first().len());
                assert(a.len() == b.len());
                assert(a =~= b) by {
                    assert forall|i: int| 0 <= i < a.len() implies a[i] == b[i] by {
                        if i > 0 {
                            assert(a[i] == a.drop_first()[i - 1]);
                            assert(b[i] == b.drop_first()[i - 1]);
                        }
                    }
                }
            }
        }
    } else if a.len() == 0 && b.len() == 0 {
        assert(a =~= b);
    }
}

pub proof fn lemma_position_lt_transitive(a: Seq<char>, b: Seq<char>, c: Seq<char>)
    requires
        position_lt(a, b),
        position_lt(b, c),
    ensures
        position_lt(a, c),
{
    if a.len() == b.len() && b.len() == c.len() {
        lemma_lex_lt_transitive(a, b, c);
    }
}

pub proof fn lemma_position_le_transitive(a: Seq<char>, b: Seq<char>, c: Seq<char>)
    requires
        position_le(a, b),
        position_le(b, c),
    ensures
        position_le(a, c),
{
    if position_lt(a, b) && position_lt(b, c) {
        lemma_position_lt_transitive(a, b, c);
    }
}

pub proof fn lemma_position_total(a: Seq<char>, b: Seq<char>)
    ensures
        position_le(a, b) || position_lt(b, a),
        !(position_lt(a, b) && position_le(b, a)),
{
    lemma_lex_lt_total(a, b);
    lemma_lex_lt_asymmetric(a, b);
    lemma_lex_lt_asymmetric(a, a);
}

/// Whether `a` comes strictly before `b` in lexicographic order.
pub fn lex_less(a: &String, b: &String) -> (r: bool)
    ensures
        r == lex_lt(a@, b@),
{
    let x = a.as_str();
    let y = b.as_str();
    let n = x.unicode_len();
    let m = y.unicode_len();
    let mut i: usize = 0;
    assert(x@.subrange(0, n as int) =~= x@);
    assert(y@.subrange(0, m as int) =~= y@);
    while i < n && i < m
        invariant
            x@ == a@,
            y@ == b@,
            n == x@.len(),
            m == y@.len(),
            i <= n,
            i <= m,
            lex_lt(a@, b@) == lex_lt(x@.subrange(i as int, n as int), y@.subrange(i as int, m as int)),
        decreases n - i,
    {
        let c = x.get_char(i);
        let d = y.get_char(i);
        let ghost sa = x@.subrange(i as int, n as int);
        let ghost sb = y@.subrange(i as int, m as int);
        assert(sa[0] == c && sb[0] == d);
        assert(sa.len() > 0 && sb.len() > 0);
        if c != d {
            assert(lex_lt(sa, sb) == (c < d));
            return c < d;
        }
        assert(sa.drop_first() =~= x@.subrange(i + 1, n as int));
        assert(sb.drop_first() =~= y@.subrange(i + 1, m as int));
        i = i + 1;
    }
    i == n && i < m
}

/// Whether `candidate` is strictly later than `current` in the order of
/// sequence numbers.
pub fn is_later_position(candidate: &String, current: &String) -> (r: bool)
    ensures
        r == position_lt(current@, candidate@),
{
    let n = current.as_str().unicode_len();
    let m = candidate.as_str().unicode_len();
    if n != m {
        n < m
    } else {
        lex_less(current, candidate)
    }
}

} // verus!
