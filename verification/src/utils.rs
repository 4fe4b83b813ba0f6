use vstd::prelude::*;

use rand::Rng;

use vstd::multiset::Multiset;

use crate::EvalError;

verus! {

/// Relies on rand's `thread_rng` and `Rng::gen_range`: for a nonempty range
/// `0..bound` the result lies in that range. Nothing more is assumed of the
/// value — it is random.
#[verifier::external_body]
fn rand_below(bound: usize) -> (r: usize)
    requires
        bound > 0,
    ensures
        r < bound,
{
    rand::thread_rng().gen_range(0..bound)
}

/// Swapping two positions of a sequence keeps its multiset of elements.
pub proof fn lemma_swap_multiset<T>(s: Seq<T>, i: int, j: int)
    requires
        0 <= i < s.len(),
        0 <= j < s.len(),
    ensures
        s.update(i, s[j]).update(j, s[i]).to_multiset() == s.to_multiset(),
{
    broadcast use vstd::seq_lib::group_to_multiset_ensures;

    let t = s.update(i, s[j]).update(j, s[i]);
    assert forall|x: T| s.to_multiset().count(x) == t.to_multiset().count(x) by {
        vstd::seq_lib::to_multiset_update(s, i, s[j]);
        vstd::seq_lib::to_multiset_update(s.update(i, s[j]), j, s[i]);
    }
    assert(s.to_multiset() =~= t.to_multiset());
}

/// Rearranges the vector in place into a random order; the elements are kept,
/// only their positions change.
pub fn shuffle_mut<T: Copy>(vec: &mut Vec<T>)
    ensures
        final (vec)@.len() == old(vec)@.len(),
        final (vec)@.to_multiset() == old(vec)@.to_multiset(),
{
    let mut i: usize = 0;
    while i < vec.len()
        invariant
            0 <= i <= vec@.len(),
            vec@.len() == old(vec)@.len(),
            vec@.to_multiset() == old(vec)@.to_multiset(),
        decreases vec@.len() - i,
    {
        let j = rand_below(i + 1);
        let ghost before = vec@;
        let a = vec[i];
        let b = vec[j];
        vec.set(i, b);
        vec.set(j, a);
        proof {
            lemma_swap_multiset(before, i as int, j as int);
            assert(vec@ =~= before.update(i as int, before[j as int]).update(
                j as int,
                before[i as int],
            ));
        }
        i = i + 1;
    }
}

/// Returns a randomly reordered copy of the vector; the input is untouched.
pub fn shuffle<T: Copy>(vec: &Vec<T>) -> (r: Vec<T>)
    ensures
        r@.len() == vec@.len(),
        r@.to_multiset() == vec@.to_multiset(),
{
    let mut copy: Vec<T> = Vec::new();
    let mut i: usize = 0;
    while i < vec.len()
        invariant
            0 <= i <= vec@.len(),
            copy@ == vec@.take(i as int),
        decreases vec@.len() - i,
    {
        copy.push(vec[i]);
        proof {
            assert(copy@ =~= vec@.take(i as int + 1));
        }
        i = i + 1;
    }
    proof {
        assert(vec@.take(vec@.len() as int) =~= vec@);
    }
    shuffle_mut(&mut copy);
    copy
}

/// Draws `n` elements at random without replacement: a sub-multiset of the
/// vector's elements. Fails when more elements are asked for than the vector
/// holds.
pub fn sample<T: Copy>(vec: &Vec<T>, n: usize) -> (r: Option<Vec<T>>)
    ensures
        r is Some <==> n <= vec@.len(),
        r matches Some(v) ==> v@.len() == n && v@.to_multiset().subset_of(vec@.to_multiset()),
{
    if n > vec.len() {
        return None;
    }
    let shuffled = shuffle(vec);
    let len = shuffled.len();
    let mut out: Vec<T> = Vec::new();
    let mut i: usize = len - n;
    while i < len
        invariant
            n <= len,
            len == shuffled@.len(),
            len - n <= i <= len,
            out@ == shuffled@.subrange(len - n, i as int),
        decreases len - i,
    {
        out.push(shuffled[i]);
        proof {
            assert(out@ =~= shuffled@.subrange(len - n, i as int + 1));
        }
        i = i + 1;
    }
    proof {
        broadcast use vstd::multiset::group_multiset_axioms;

        let head = shuffled@.subrange(0, len - n);
        assert(shuffled@ =~= head + out@);
        vstd::seq_lib::lemma_multiset_commutative(head, out@);
        assert forall|x: T| out@.to_multiset().count(x) <= vec@.to_multiset().count(x) by {
            assert(shuffled@.to_multiset().count(x) == head.to_multiset().count(x)
                + out@.to_multiset().count(x));
        }
    }
    Some(out)
}

/// A uniformly random element of a nonempty vector.
pub fn pick<T: Copy>(vec: &Vec<T>) -> (r: T)
    requires
        vec@.len() > 0,
    ensures
        vec@.contains(r),
{
    let j = rand_below(vec.len());
    let r = vec[j];
    proof {
        assert(vec@[j as int] == r);
    }
    r
}

/// Draws `n` elements at random with replacement; every one of them is an
/// element of the vector.
pub fn choices<T: Copy>(vec: &Vec<T>, n: usize) -> (r: Vec<T>)
    requires
        n == 0 || vec@.len() > 0,
    ensures
        r@.len() == n,
        forall|i: int| 0 <= i < n ==> vec@.contains(#[trigger] r@[i]),
{
    let mut out: Vec<T> = Vec::new();
    let mut i: usize = 0;
    while i < n
        invariant
            0 <= i <= n,
            n == 0 || vec@.len() > 0,
            out@.len() == i,
            forall|j: int| 0 <= j < i ==> vec@.contains(#[trigger] out@[j]),
        decreases n - i,
    {
        out.push(pick(vec));
        i = i + 1;
    }
    out
}

/// All k-element selections of a sequence, in lexicographic index order:
/// first every selection containing the head, then every selection without
/// it; each selection keeps the input's relative order.
pub open spec fn spec_combos<T>(s: Seq<T>, k: nat) -> Seq<Seq<T>>
    decreases s.len(),
{
    if k == 0 {
        seq![Seq::<T>::empty()]
    } else if s.len() < k {
        Seq::empty()
    } else {
        spec_combos(s.drop_first(), (k - 1) as nat).map_values(|c: Seq<T>| seq![s[0]] + c)
            + spec_combos(s.drop_first(), k)
    }
}

/// Every k-selection has exactly k elements, all drawn from the sequence.
pub proof fn lemma_combos_wf<T>(s: Seq<T>, k: nat)
    ensures
        forall|i: int|
            0 <= i < spec_combos(s, k).len() ==> (#[trigger] spec_combos(s, k)[i]).len() == k,
        forall|i: int, j: int|
            0 <= i < spec_combos(s, k).len() && 0 <= j < k ==> s.contains(
                #[trigger] spec_combos(s, k)[i][j],
            ),
    decreases s.len(),
{
    if k == 0 || s.len() < k {
    } else {
        let rest = s.drop_first();
        lemma_combos_wf(rest, (k - 1) as nat);
        lemma_combos_wf(rest, k);
        let f = |c: Seq<T>| seq![s[0]] + c;
        let withs = spec_combos(rest, (k - 1) as nat).map_values(f);
        let withouts = spec_combos(rest, k);
        assert(forall|j: int| 0 <= j < rest.len() ==> rest[j] == s[j + 1]);
        assert forall|x: T| rest.contains(x) implies s.contains(x) by {
            let j = choose|j: int| 0 <= j < rest.len() && rest[j] == x;
            assert(s[j + 1] == x);
        }
        assert forall|i: int|
            0 <= i < spec_combos(s, k).len() implies (#[trigger] spec_combos(s, k)[i]).len()
            == k by {
            if i < withs.len() {
                assert(spec_combos(s, k)[i] == seq![s[0]] + spec_combos(rest, (k - 1) as nat)[i]);
            } else {
                assert(spec_combos(s, k)[i] == withouts[i - withs.len()]);
            }
        }
        assert forall|i: int, j: int|
            0 <= i < spec_combos(s, k).len() && 0 <= j < k implies s.contains(
            #[trigger] spec_combos(s, k)[i][j],
        ) by {
            if i < withs.len() {
                let c = spec_combos(rest, (k - 1) as nat)[i];
                assert(spec_combos(s, k)[i] == seq![s[0]] + c);
                if j == 0 {
                    assert(spec_combos(s, k)[i][0] == s[0]);
                    assert(s.contains(s[0]));
                } else {
                    assert(spec_combos(s, k)[i][j] == c[j - 1]);
                    assert(rest.contains(c[j - 1]));
                }
            } else {
                let c = withouts[i - withs.len()];
                assert(spec_combos(s, k)[i] == c);
                assert(rest.contains(c[j]));
            }
        }
    }
}

/// Every k-selection takes its elements out of the sequence: its multiset is
/// a sub-multiset of the sequence's.
pub proof fn lemma_combos_submultiset<T>(s: Seq<T>, k: nat)
    ensures
        forall|i: int|
            0 <= i < spec_combos(s, k).len() ==> (#[trigger] spec_combos(s,
            k)[i]).to_multiset().subset_of(s.to_multiset()),
    decreases s.len(),
{
    broadcast use vstd::seq_lib::group_to_multiset_ensures;
    broadcast use vstd::multiset::group_multiset_axioms;

    if k == 0 || s.len() < k {
        assert forall|i: int|
            0 <= i < spec_combos(s, k).len() implies (#[trigger] spec_combos(s,
        k)[i]).to_multiset().subset_of(s.to_multiset()) by {
            assert(spec_combos(s, k)[i] == Seq::<T>::empty());
            assert(Seq::<T>::empty().to_multiset() =~= Multiset::<T>::empty());
        }
    } else {
        let rest = s.drop_first();
        lemma_combos_submultiset(rest, (k - 1) as nat);
        lemma_combos_submultiset(rest, k);
        let head = seq![s[0]];
        assert(s =~= head + rest);
        vstd::seq_lib::lemma_multiset_commutative(head, rest);
        let withs = spec_combos(rest, (k - 1) as nat).map_values(|c: Seq<T>| seq![s[0]] + c);
        assert forall|i: int|
            0 <= i < spec_combos(s, k).len() implies (#[trigger] spec_combos(s,
        k)[i]).to_multiset().subset_of(s.to_multiset()) by {
            if i < withs.len() {
                let c = spec_combos(rest, (k - 1) as nat)[i];
                assert(spec_combos(s, k)[i] == head + c);
                vstd::seq_lib::lemma_multiset_commutative(head, c);
                assert(c.to_multiset().subset_of(rest.to_multiset()));
                assert forall|x: T| (head + c).to_multiset().count(x) <= s.to_multiset().count(
                    x,
                ) by {
                    assert((head + c).to_multiset().count(x) == head.to_multiset().count(x)
                        + c.to_multiset().count(x));
                    assert(s.to_multiset().count(x) == head.to_multiset().count(x)
                        + rest.to_multiset().count(x));
                }
            } else {
                let c = spec_combos(rest, k)[i - withs.len()];
                assert(spec_combos(s, k)[i] == c);
                assert(c.to_multiset().subset_of(rest.to_multiset()));
                assert forall|x: T| c.to_multiset().count(x) <= s.to_multiset().count(x) by {
                    assert(s.to_multiset().count(x) == head.to_multiset().count(x)
                        + rest.to_multiset().count(x));
                }
            }
        }
    }
}

fn combos_from<T: Copy>(v: &Vec<T>, start: usize, k: usize) -> (r: Vec<Vec<T>>)
    requires
        start <= v@.len(),
    ensures
        r@.map_values(|c: Vec<T>| c@) == spec_combos(v@.skip(start as int), k as nat),
    decreases v@.len() - start,
{
    let ghost tail = v@.skip(start as int);
    if k == 0 {
        let mut r: Vec<Vec<T>> = Vec::new();
        r.push(Vec::new());
        proof {
            assert(r@.map_values(|c: Vec<T>| c@) =~= seq![Seq::<T>::empty()]);
        }
        return r;
    }
    if v.len() - start < k {
        let r: Vec<Vec<T>> = Vec::new();
        proof {
            assert(tail.len() < k as nat);
            assert(r@.map_values(|c: Vec<T>| c@) =~= Seq::<Seq<T>>::empty());
        }
        return r;
    }
    proof {
        assert(tail.drop_first() =~= v@.skip(start as int + 1));
        assert(tail[0] == v@[start as int]);
    }
    let first = v[start];
    let with_rest = combos_from(v, start + 1, k - 1);
    let ghost subs = spec_combos(tail.drop_first(), (k - 1) as nat);
    let mut r: Vec<Vec<T>> = Vec::new();
    let mut idx: usize = 0;
    while idx < with_rest.len()
        invariant
            0 <= idx <= with_rest@.len(),
            with_rest@.map_values(|c: Vec<T>| c@) == subs,
            first == tail[0],
            r@.len() == idx,
            forall|t: int| 0 <= t < idx ==> (#[trigger] r@[t])@ == seq![first] + subs[t],
        decreases with_rest@.len() - idx,
    {
        let c = &with_rest[idx];
        let mut nc: Vec<T> = Vec::new();
        nc.push(first);
        let mut j: usize = 0;
        while j < c.len()
            invariant
                0 <= j <= c@.len(),
                nc@ == seq![first] + c@.take(j as int),
            decreases c@.len() - j,
        {
            nc.push(c[j]);
            proof {
                assert(nc@ =~= seq![first] + c@.take(j as int + 1));
            }
            j = j + 1;
        }
        proof {
            assert(c@.take(c@.len() as int) =~= c@);
            assert(nc@ == seq![first] + c@);
            assert(with_rest@.map_values(|c2: Vec<T>| c2@)[idx as int] == with_rest@[idx as int]@);
            assert(c@ == subs[idx as int]);
        }
        r.push(nc);
        idx = idx + 1;
    }
    let mut without = combos_from(v, start + 1, k);
    let ghost with_part = r@;
    let ghost without_part = without@;
    let ghost without_view = without@.map_values(|c: Vec<T>| c@);
    r.append(&mut without);
    proof {
        let whole = spec_combos(tail, k as nat);
        let mapped = subs.map_values(|c: Seq<T>| seq![tail[0]] + c);
        assert(whole == mapped + spec_combos(tail.drop_first(), k as nat));
        assert(subs.len() == with_part.len());
        assert forall|t: int| 0 <= t < whole.len() implies r@.map_values(|c: Vec<T>| c@)[t]
            == whole[t] by {
            assert(r@.map_values(|c2: Vec<T>| c2@)[t] == r@[t]@);
            if t < with_part.len() {
                assert(r@[t] == with_part[t]);
                assert(mapped[t] == seq![tail[0]] + subs[t]);
                assert(whole[t] == mapped[t]);
            } else {
                assert(r@[t] == without_part[t - with_part.len()]);
                assert(without_view[t - with_part.len()] == without_part[t - with_part.len()]@);
                assert(whole[t] == spec_combos(tail.drop_first(), k as nat)[t - mapped.len()]);
            }
        }
        assert(r@.map_values(|c: Vec<T>| c@) =~= whole);
    }
    r
}

/// All k-element selections of the vector, in lexicographic index order, each
/// keeping the input's relative order. Fails with `InvalidCombinationSize`
/// exactly when `k` exceeds the vector's length.
pub fn combinations<T: Copy>(vec: &Vec<T>, k: usize) -> (r: Result<Vec<Vec<T>>, EvalError>)
    ensures
        r is Ok <==> k <= vec@.len(),
        r matches Ok(cs) ==> cs@.map_values(|c: Vec<T>| c@) == spec_combos(vec@, k as nat),
        r matches Err(e) ==> e == EvalError::InvalidCombinationSize,
{
    if k > vec.len() {
        return Err(EvalError::InvalidCombinationSize);
    }
    let r = combos_from(vec, 0, k);
    proof {
        assert(vec@.skip(0) =~= vec@);
    }
    Ok(r)
}

} // verus!
