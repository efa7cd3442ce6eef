//! Edit distance between sequences.
use vstd::prelude::*;
use vstd::string::StringSliceAdditionalSpecFns;

verus! {

pub open spec fn min3(a: nat, b: nat, c: nat) -> nat {
    if a <= b && a <= c {
        a
    } else if b <= c {
        b
    } else {
        c
    }
}

/// Edit distance with unit costs for insertion, deletion and substitution.
pub open spec fn edit_distance(a: Seq<u8>, b: Seq<u8>) -> nat
    decreases a.len() + b.len(),
{
    if a.len() == 0 {
        b.len()
    } else if b.len() == 0 {
        a.len()
    } else {
        min3(
            edit_distance(a.drop_last(), b) + 1,
            edit_distance(a, b.drop_last()) + 1,
            edit_distance(a.drop_last(), b.drop_last()) + if a.last() == b.last() {
                0nat
            } else {
                1nat
            },
        )
    }
}

/// The edit distance never exceeds the longer of the two lengths.
pub proof fn lemma_edit_distance_bound(a: Seq<u8>, b: Seq<u8>)
    ensures
        edit_distance(a, b) <= if a.len() >= b.len() {
            a.len()
        } else {
            b.len()
        },
    decreases a.len() + b.len(),
{
    if a.len() > 0 && b.len() > 0 {
        lemma_edit_distance_bound(a.drop_last(), b.drop_last());
    }
}

/// The edit distance does not depend on the order of its arguments.
pub proof fn lemma_edit_distance_symmetric(a: Seq<u8>, b: Seq<u8>)
    ensures
        edit_distance(a, b) == edit_distance(b, a),
    decreases a.len() + b.len(),
{
    if a.len() > 0 && b.len() > 0 {
        lemma_edit_distance_symmetric(a.drop_last(), b);
        lemma_edit_distance_symmetric(a, b.drop_last());
        lemma_edit_distance_symmetric(a.drop_last(), b.drop_last());
    }
}

/// Edit distance of the byte sequences of two strings, computed row by row
/// over the longer one with two rows as wide as the shorter one.
pub fn levenshtein_distance(first: &str, second: &str) -> (r: usize)
    ensures
        r == edit_distance(first.spec_bytes(), second.spec_bytes()),
{
    let fb = first.as_bytes();
    let sb = second.as_bytes();
    let long: &[u8];
    let short: &[u8];
    if fb.len() > sb.len() {
        long = fb;
        short = sb;
    } else {
        short = fb;
        long = sb;
    }
    let longd = long.len();
    let shortd = short.len();
    let ghost ls = long@;
    let ghost ss = short@;

    let mut prev: Vec<usize> = Vec::new();
    let mut i: usize = 0;
    while i < shortd
        invariant
            i <= shortd,
            shortd == ss.len(),
            prev@.len() == i,
            forall|j: int| 0 <= j < i ==> prev@[j] == edit_distance(Seq::empty(), ss.subrange(0, j)),
        decreases shortd - i,
    {
        assert(edit_distance(Seq::empty(), ss.subrange(0, i as int)) == i);
        prev.push(i);
        i = i + 1;
    }
    assert(edit_distance(Seq::empty(), ss.subrange(0, shortd as int)) == shortd);
    prev.push(shortd);
    let mut cur: Vec<usize> = prev.clone();
    assert(ls.subrange(0, 0) =~= Seq::<u8>::empty());

    let mut y: usize = 0;
    while y < longd
        invariant
            y <= longd,
            shortd <= longd,
            longd == ls.len(),
            shortd == ss.len(),
            long@ == ls,
            short@ == ss,
            prev@.len() == shortd + 1,
            cur@.len() == shortd + 1,
            forall|j: int|
                0 <= j <= shortd ==> prev@[j] == edit_distance(
                    ls.subrange(0, y as int),
                    ss.subrange(0, j),
                ),
        decreases longd - y,
    {
        let ghost a = ls.subrange(0, y as int + 1);
        assert(a.drop_last() =~= ls.subrange(0, y as int));
        assert(ss.subrange(0, 0) =~= Seq::<u8>::empty());
        cur.set(0, y + 1);
        let mut x: usize = 0;
        while x < shortd
            invariant
                x <= shortd,
                y < longd,
                shortd <= longd,
                longd == ls.len(),
                shortd == ss.len(),
                long@ == ls,
                short@ == ss,
                a == ls.subrange(0, y as int + 1),
                a.drop_last() == ls.subrange(0, y as int),
                prev@.len() == shortd + 1,
                cur@.len() == shortd + 1,
                forall|j: int|
                    0 <= j <= shortd ==> prev@[j] == edit_distance(
                        ls.subrange(0, y as int),
                        ss.subrange(0, j),
                    ),
                forall|j: int| 0 <= j <= x ==> cur@[j] == edit_distance(a, ss.subrange(0, j)),
            decreases shortd - x,
        {
            let ghost b = ss.subrange(0, x as int + 1);
            assert(b.drop_last() =~= ss.subrange(0, x as int));
            proof {
                lemma_edit_distance_bound(ls.subrange(0, y as int), ss.subrange(0, x as int));
            }
            let diag = prev[x];
            let sub = if long[y] == short[x] {
                diag
            } else {
                diag + 1
            };
            let up = prev[x + 1];
            let left = cur[x];
            let m = if up < left {
                up
            } else {
                left
            };
            let v = if m < sub {
                m + 1
            } else {
                sub
            };
            assert(edit_distance(a, b) == v);
            cur.set(x + 1, v);
            x = x + 1;
        }
        std::mem::swap(&mut cur, &mut prev);
        y = y + 1;
    }
    assert(ls.subrange(0, longd as int) =~= ls);
    assert(ss.subrange(0, shortd as int) =~= ss);
    proof {
        lemma_edit_distance_symmetric(ls, ss);
    }
    prev[shortd]
}

} // verus!
