//! Combinations of piece types: the multisets of a given size, each written
//! as a list in canonical order.

use vstd::prelude::*;
use crate::piece::PieceType;

verus! {

/// Whether `c` is a combination of `n` piece types: `n` types, none of which
/// comes before an earlier one in the canonical list Pawn, Knight, Bishop,
/// Rook, Queen, King.
pub open spec fn is_combination(n: int, c: Seq<PieceType>) -> bool {
    &&& c.len() == n
    &&& forall|a: int, b: int|
        0 <= a <= b < c.len() ==> (#[trigger] c[a]).spec_ordinal() <= (#[trigger] c[b]).spec_ordinal()
}

/// Whether `c` continues `prefix` by `num` more types in canonical order, the
/// first of them at position `start` of the canonical list or later.
pub open spec fn is_extension(prefix: Seq<PieceType>, start: int, num: int, c: Seq<PieceType>) -> bool {
    &&& c.len() == prefix.len() + num
    &&& forall|k: int| 0 <= k < prefix.len() ==> c[k] == prefix[k]
    &&& forall|a: int, b: int|
        prefix.len() <= a <= b < c.len() ==> (#[trigger] c[a]).spec_ordinal() <= (
        #[trigger] c[b]).spec_ordinal()
    &&& num > 0 ==> c[prefix.len() as int].spec_ordinal() >= start
}

/// Whether `c` is one of the lists at positions `lo..hi`.
pub open spec fn listed(lists: Seq<Vec<PieceType>>, lo: int, hi: int, c: Seq<PieceType>) -> bool {
    exists|i: int| lo <= i < hi && (#[trigger] lists[i])@ == c
}

/// Whether `a` comes before `b` in the order of the lists: at the first
/// position where they differ, `a` holds the type that comes earlier in the
/// canonical list.
pub open spec fn comes_before(a: Seq<PieceType>, b: Seq<PieceType>) -> bool {
    exists|k: int|
        0 <= k < a.len() && k < b.len() && a.take(k) == b.take(k) && (#[trigger] a[k]).spec_ordinal()
            < b[k].spec_ordinal()
}

proof fn lemma_extension_join(
    prefix: Seq<PieceType>,
    t: PieceType,
    start: int,
    num: int,
    c: Seq<PieceType>,
)
    requires
        num >= 1,
        t.spec_ordinal() >= start,
        is_extension(prefix.push(t), t.spec_ordinal(), num - 1, c),
    ensures
        is_extension(prefix, start, num, c),
        c[prefix.len() as int] == t,
{
    let longer = prefix.push(t);
    let n = prefix.len() as int;
    assert(c[n] == longer[n]);
    assert forall|k: int| 0 <= k < prefix.len() implies c[k] == prefix[k] by {
        assert(c[k] == longer[k]);
    }
    assert forall|a: int, b: int| n <= a <= b < c.len() implies (#[trigger] c[a]).spec_ordinal() <= (
    #[trigger] c[b]).spec_ordinal() by {
        if a == n && b > n {
            assert(c[n + 1].spec_ordinal() <= c[b].spec_ordinal());
        }
    }
}

proof fn lemma_extension_split(prefix: Seq<PieceType>, start: int, num: int, c: Seq<PieceType>)
    requires
        num >= 1,
        is_extension(prefix, start, num, c),
    ensures
        is_extension(
            prefix.push(c[prefix.len() as int]),
            c[prefix.len() as int].spec_ordinal(),
            num - 1,
            c,
        ),
{
    let n = prefix.len() as int;
    let longer = prefix.push(c[n]);
    assert forall|k: int| 0 <= k < longer.len() implies c[k] == longer[k] by {
        if k < n {
            assert(longer[k] == prefix[k]);
        }
    }
    if num - 1 > 0 {
        assert(c[n].spec_ordinal() <= c[n + 1].spec_ordinal());
    }
}

fn copy_of(list: &Vec<PieceType>) -> (r: Vec<PieceType>)
    ensures
        r@ == list@,
{
    let mut r: Vec<PieceType> = Vec::new();
    let mut i: usize = 0;
    while i < list.len()
        invariant
            i <= list.len(),
            r@ == list@.take(i as int),
        decreases list.len() - i,
    {
        r.push(list[i]);
        assert(list@.take(i + 1) =~= list@.take(i as int).push(list@[i as int]));
        i = i + 1;
    }
    assert(list@.take(list.len() as int) =~= list@);
    r
}

/// Appends to `results` every way to continue `comb` by `num` more types, the
/// first of them at position `start` of the canonical list or later.
fn extend_combinations(
    comb: &mut Vec<PieceType>,
    start: usize,
    num: usize,
    results: &mut Vec<Vec<PieceType>>,
)
    ensures
        final(comb)@ == old(comb)@,
        old(results)@.len() <= final(results)@.len(),
        forall|i: int| 0 <= i < old(results)@.len() ==> final(results)@[i] == old(results)@[i],
        forall|i: int|
            old(results)@.len() <= i < final(results)@.len() ==> is_extension(
                old(comb)@,
                start as int,
                num as int,
                (#[trigger] final(results)@[i])@,
            ),
        forall|c: Seq<PieceType>|
            #[trigger] is_extension(old(comb)@, start as int, num as int, c) ==> listed(
                final(results)@,
                old(results)@.len() as int,
                final(results)@.len() as int,
                c,
            ),
        forall|i: int, j: int|
            old(results)@.len() <= i < j < final(results)@.len() ==> comes_before(
                (#[trigger] final(results)@[i])@,
                (#[trigger] final(results)@[j])@,
            ),
    decreases num,
{
    let ghost base = comb@;
    let ghost before = results@;
    if num == 0 {
        let done = copy_of(comb);
        results.push(done);
        proof {
            assert forall|c: Seq<PieceType>| #[trigger]
                is_extension(base, start as int, 0, c) implies listed(
                results@,
                before.len() as int,
                results@.len() as int,
                c,
            ) by {
                assert(c =~= base);
                assert(results@[before.len() as int]@ == c);
            }
        }
        return ;
    }
    let mut i = start;
    while i < 6
        invariant
            num > 0,
            start <= i,
            comb@ == base,
            before.len() <= results@.len(),
            forall|j: int| 0 <= j < before.len() ==> results@[j] == before[j],
            forall|j: int|
                before.len() <= j < results@.len() ==> is_extension(
                    base,
                    start as int,
                    num as int,
                    (#[trigger] results@[j])@,
                ) && results@[j]@[base.len() as int].spec_ordinal() < i,
            forall|c: Seq<PieceType>|
                #[trigger] is_extension(base, start as int, num as int, c) && c[base.len() as int].spec_ordinal()
                    < i ==> listed(results@, before.len() as int, results@.len() as int, c),
            forall|j: int, k: int|
                before.len() <= j < k < results@.len() ==> comes_before(
                    (#[trigger] results@[j])@,
                    (#[trigger] results@[k])@,
                ),
        decreases 6 - i,
    {
        let t = PieceType::from_ordinal(i);
        comb.push(t);
        let ghost mid = results@;
        extend_combinations(comb, i, num - 1, results);
        comb.pop();
        proof {
            assert(comb@ =~= base);
            assert forall|j: int| mid.len() <= j < results@.len() implies is_extension(
                base,
                start as int,
                num as int,
                (#[trigger] results@[j])@,
            ) && results@[j]@[base.len() as int] == t by {
                lemma_extension_join(base, t, start as int, num as int, results@[j]@);
            }
            assert forall|c: Seq<PieceType>| #[trigger]
                is_extension(base, start as int, num as int, c) && c[base.len() as int].spec_ordinal()
                    < i + 1 implies listed(
                results@,
                before.len() as int,
                results@.len() as int,
                c,
            ) by {
                if c[base.len() as int].spec_ordinal() < i {
                    assert(listed(mid, before.len() as int, mid.len() as int, c));
                    let j = choose|j: int|
                        before.len() <= j < mid.len() && (#[trigger] mid[j])@ == c;
                    assert(results@[j] == mid[j]);
                } else {
                    lemma_extension_split(base, start as int, num as int, c);
                    assert(c[base.len() as int] == t);
                    assert(is_extension(base.push(t), i as int, num - 1, c));
                    assert(listed(results@, mid.len() as int, results@.len() as int, c));
                    let j = choose|j: int|
                        mid.len() <= j < results@.len() && (#[trigger] results@[j])@ == c;
                    assert(results@[j]@ == c);
                }
            }
            assert forall|j: int, k: int|
                before.len() <= j < k < results@.len() implies comes_before(
                (#[trigger] results@[j])@,
                (#[trigger] results@[k])@,
            ) by {
                if k < mid.len() {
                    assert(results@[j] == mid[j]);
                    assert(results@[k] == mid[k]);
                } else if j < mid.len() {
                    let n = base.len() as int;
                    let x = results@[j]@;
                    let y = results@[k]@;
                    assert(results@[j] == mid[j]);
                    assert(x[n].spec_ordinal() < i);
                    assert(y[n] == t);
                    assert(x.take(n) =~= base);
                    assert(y.take(n) =~= base);
                }
            }
            assert forall|j: int| before.len() <= j < results@.len() implies is_extension(
                base,
                start as int,
                num as int,
                (#[trigger] results@[j])@,
            ) && results@[j]@[base.len() as int].spec_ordinal() < i + 1 by {
                if j < mid.len() {
                    assert(results@[j] == mid[j]);
                }
            }
        }
        i = i + 1;
    }
    proof {
        assert forall|c: Seq<PieceType>| #[trigger]
            is_extension(base, start as int, num as int, c) implies listed(
            results@,
            before.len() as int,
            results@.len() as int,
            c,
        ) by {
            assert(c[base.len() as int].spec_ordinal() < 6);
        }
    }
}

/// All combinations of `num_pairs` piece types, each once, in the order of the
/// lists: the one that holds the earlier type at the first position where two
/// differ comes first.
pub fn generate_combinations(num_pairs: usize) -> (results: Vec<Vec<PieceType>>)
    ensures
        forall|i: int|
            0 <= i < results@.len() ==> is_combination(num_pairs as int, (#[trigger] results@[i])@),
        forall|c: Seq<PieceType>|
            #[trigger] is_combination(num_pairs as int, c) ==> listed(
                results@,
                0,
                results@.len() as int,
                c,
            ),
        forall|i: int, j: int|
            0 <= i < j < results@.len() ==> comes_before(
                (#[trigger] results@[i])@,
                (#[trigger] results@[j])@,
            ),
        forall|i: int, j: int|
            0 <= i < j < results@.len() ==> (#[trigger] results@[i])@ != (#[trigger] results@[j])@,
{
    let mut results: Vec<Vec<PieceType>> = Vec::new();
    let mut comb: Vec<PieceType> = Vec::new();
    extend_combinations(&mut comb, 0, num_pairs, &mut results);
    proof {
        assert forall|c: Seq<PieceType>| #[trigger]
            is_combination(num_pairs as int, c) implies listed(
            results@,
            0,
            results@.len() as int,
            c,
        ) by {
            assert(is_extension(Seq::<PieceType>::empty(), 0, num_pairs as int, c));
        }
        assert forall|i: int, j: int| 0 <= i < j < results@.len() implies (
        #[trigger] results@[i])@ != (#[trigger] results@[j])@ by {
            let a = results@[i]@;
            let b = results@[j]@;
            assert(comes_before(a, b));
            let k = choose|k: int|
                0 <= k < a.len() && k < b.len() && a.take(k) == b.take(k) && (
                #[trigger] a[k]).spec_ordinal() < b[k].spec_ordinal();
            assert(a[k] != b[k]);
        }
    }
    results
}

} // verus!
