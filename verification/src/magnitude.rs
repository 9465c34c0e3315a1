//! The mathematical model of a magnitude: a little-endian sequence of 32-bit
//! words denoting a non-negative integer in base 2^32, normalized so that no
//! trailing (most-significant) zero word remains except in the single-word
//! zero `[0]`.

use vstd::prelude::*;

verus! {

/// The base of the word representation, 2^32.
pub open spec fn base() -> nat {
    0x1_0000_0000
}

/// base() raised to the power n.
pub open spec fn pw(n: nat) -> nat
    decreases n,
{
    if n == 0 {
        1
    } else {
        (base() * pw((n - 1) as nat)) as nat
    }
}

/// The integer a word sequence denotes, least-significant word first.
pub open spec fn mag(s: Seq<u32>) -> nat
    decreases s.len(),
{
    if s.len() == 0 {
        0
    } else {
        (s[0] + base() * mag(s.skip(1))) as nat
    }
}

/// A word sequence is normalized when it is non-empty and its
/// most-significant word is non-zero unless it is the single word `[0]`.
pub open spec fn is_norm(s: Seq<u32>) -> bool {
    s.len() >= 1 && (s.len() > 1 ==> s[s.len() - 1] != 0)
}

/// A single word denotes itself.
pub proof fn lemma_mag_single(s: Seq<u32>)
    requires
        s.len() == 1,
    ensures
        mag(s) == s[0],
{
    assert(s.skip(1) =~= Seq::<u32>::empty());
    assert(mag(Seq::<u32>::empty()) == 0);
    assert(mag(s) == (s[0] + base() * mag(s.skip(1))) as nat);
}

pub proof fn lemma_pw_pos(n: nat)
    ensures
        pw(n) >= 1,
    decreases n,
{
    if n > 0 {
        lemma_pw_pos((n - 1) as nat);
    }
}

pub proof fn lemma_pw_add(m: nat, n: nat)
    ensures
        pw((m + n) as nat) == pw(m) * pw(n),
    decreases m,
{
    if m == 0 {
        assert(pw(n) == 1 * pw(n)) by (nonlinear_arith);
    } else {
        lemma_pw_add((m - 1) as nat, n);
        assert(base() * (pw((m - 1) as nat) * pw(n)) == (base() * pw((m - 1) as nat)) * pw(n))
            by (nonlinear_arith);
    }
}

pub proof fn lemma_pw_mono(m: nat, n: nat)
    requires
        m <= n,
    ensures
        pw(m) <= pw(n),
    decreases n,
{
    if m < n {
        lemma_pw_mono(m, (n - 1) as nat);
        lemma_pw_pos((n - 1) as nat);
        assert(pw((n - 1) as nat) <= base() * pw((n - 1) as nat)) by (nonlinear_arith)
            requires
                pw((n - 1) as nat) >= 1,
        ;
    }
}

/// The value of a prefix one word longer: the word at i weighs pw(i).
pub proof fn lemma_mag_take_succ(s: Seq<u32>, i: int)
    requires
        0 <= i < s.len(),
    ensures
        mag(s.take(i + 1)) == mag(s.take(i)) + s[i] * pw(i as nat),
    decreases i,
{
    if i == 0 {
        lemma_mag_single(s.take(1));
        assert(s.take(1)[0] == s[0]);
        assert(s.take(0) =~= Seq::<u32>::empty());
        assert(mag(Seq::<u32>::empty()) == 0);
        assert(pw(0) == 1);
        assert(s[0] * 1 == s[0]) by (nonlinear_arith);
    } else {
        let t = s.skip(1);
        lemma_mag_take_succ(t, i - 1);
        assert(s.take(i + 1).skip(1) =~= t.take(i));
        assert(s.take(i).skip(1) =~= t.take(i - 1));
        assert(mag(s.take(i + 1)) == (s[0] + base() * mag(t.take(i))) as nat);
        assert(mag(s.take(i)) == (s[0] + base() * mag(t.take(i - 1))) as nat);
        assert(t[i - 1] == s[i]);
        assert(base() * (mag(t.take(i - 1)) + s[i] * pw((i - 1) as nat)) == base() * mag(
            t.take(i - 1),
        ) + s[i] * (base() * pw((i - 1) as nat))) by (nonlinear_arith);
    }
}

/// A sequence's value equals the value of its full prefix.
pub proof fn lemma_mag_take_full(s: Seq<u32>)
    ensures
        mag(s.take(s.len() as int)) == mag(s),
{
    assert(s.take(s.len() as int) =~= s);
}

/// Appending a word adds its weighted value.
pub proof fn lemma_mag_push(s: Seq<u32>, x: u32)
    ensures
        mag(s.push(x)) == mag(s) + x * pw(s.len()),
{
    let p = s.push(x);
    lemma_mag_take_succ(p, s.len() as int);
    assert(p.take(s.len() as int) =~= s);
    assert(p.take(s.len() as int + 1) =~= p);
}

/// Dropping a most-significant zero word keeps the value.
pub proof fn lemma_mag_drop_zero(s: Seq<u32>)
    requires
        s.len() >= 1,
        s[s.len() - 1] == 0,
    ensures
        mag(s.take(s.len() - 1)) == mag(s),
{
    lemma_mag_take_succ(s, s.len() - 1);
    lemma_mag_take_full(s);
}

/// Every value is below pw of the length.
pub proof fn lemma_mag_bound(s: Seq<u32>)
    ensures
        mag(s) < pw(s.len()),
    decreases s.len(),
{
    if s.len() == 0 {
    } else {
        let t = s.skip(1);
        lemma_mag_bound(t);
        assert(mag(t) + 1 <= pw(t.len()));
        assert(base() * (mag(t) + 1) <= base() * pw(t.len())) by (nonlinear_arith)
            requires
                mag(t) + 1 <= pw(t.len()),
        ;
    }
}

/// The value splits at any cut: low words plus pw-weighted high words.
pub proof fn lemma_mag_split(s: Seq<u32>, i: int)
    requires
        0 <= i <= s.len(),
    ensures
        mag(s) == mag(s.take(i)) + pw(i as nat) * mag(s.skip(i)),
    decreases i,
{
    if i == 0 {
        assert(s.take(0) =~= Seq::<u32>::empty());
        assert(s.skip(0) =~= s);
        assert(mag(s) == 1 * mag(s)) by (nonlinear_arith);
    } else {
        let t = s.skip(1);
        lemma_mag_split(t, i - 1);
        assert(s.take(i).skip(1) =~= t.take(i - 1));
        assert(s.skip(i) =~= t.skip(i - 1));
        assert(mag(s) == (s[0] + base() * mag(t)) as nat);
        assert(mag(s.take(i)) == (s[0] + base() * mag(t.take(i - 1))) as nat);
        assert(base() * (mag(t.take(i - 1)) + pw((i - 1) as nat) * mag(t.skip(i - 1))) == base()
            * mag(t.take(i - 1)) + (base() * pw((i - 1) as nat)) * mag(t.skip(i - 1)))
            by (nonlinear_arith);
    }
}

/// A non-zero most-significant word puts the value at or above pw(len - 1).
pub proof fn lemma_mag_top_word(s: Seq<u32>)
    requires
        s.len() >= 1,
        s[s.len() - 1] != 0,
    ensures
        mag(s) >= pw((s.len() - 1) as nat),
{
    let i = s.len() - 1;
    lemma_mag_split(s, i);
    lemma_mag_single(s.skip(i));
    assert(s.skip(i)[0] == s[i]);
    assert(pw(i as nat) * mag(s.skip(i)) >= pw(i as nat)) by (nonlinear_arith)
        requires
            mag(s.skip(i)) >= 1,
            pw(i as nat) >= 0,
    ;
}

/// Conversely, a value at or above pw(len - 1) forces the top word non-zero.
pub proof fn lemma_mag_high_top(s: Seq<u32>)
    requires
        s.len() >= 1,
        mag(s) >= pw((s.len() - 1) as nat),
    ensures
        s[s.len() - 1] != 0,
{
    if s[s.len() - 1] == 0 {
        lemma_mag_drop_zero(s);
        lemma_mag_bound(s.take(s.len() - 1));
    }
}

/// The value is zero exactly when every word is zero.
pub proof fn lemma_mag_zero(s: Seq<u32>)
    ensures
        mag(s) == 0 <==> (forall|i: int| 0 <= i < s.len() ==> s[i] == 0),
    decreases s.len(),
{
    if s.len() > 0 {
        let t = s.skip(1);
        lemma_mag_zero(t);
        assert(base() * mag(t) >= mag(t)) by (nonlinear_arith);
        if mag(s) == 0 {
            assert(forall|i: int| 0 <= i < s.len() ==> s[i] == 0) by {
                assert(forall|i: int| 1 <= i < s.len() ==> s[i] == t[i - 1] && t[i - 1] == 0);
            }
        }
        if forall|i: int| 0 <= i < s.len() ==> s[i] == 0 {
            assert(forall|j: int| 0 <= j < t.len() ==> t[j] == s[j + 1] && s[j + 1] == 0);
            assert(mag(t) == 0);
        }
    }
}

/// Overwriting one word shifts the value by the weighted difference.
pub proof fn lemma_mag_update(s: Seq<u32>, k: int, v: u32)
    requires
        0 <= k < s.len(),
    ensures
        mag(s.update(k, v)) == mag(s) + v * pw(k as nat) - s[k] * pw(k as nat),
{
    let t = s.update(k, v);
    lemma_mag_split(s, k);
    lemma_mag_split(t, k);
    assert(t.take(k) =~= s.take(k));
    assert(s.skip(k).skip(1) =~= s.skip(k + 1));
    assert(t.skip(k).skip(1) =~= s.skip(k + 1));
    assert(s.skip(k)[0] == s[k]);
    assert(t.skip(k)[0] == v);
    assert(mag(s.skip(k)) == (s[k] + base() * mag(s.skip(k + 1))) as nat);
    assert(mag(t.skip(k)) == (v + base() * mag(s.skip(k + 1))) as nat);
    let p = pw(k as nat);
    assert(p * ((v + base() * mag(s.skip(k + 1))) as nat) - p * ((s[k] + base() * mag(
        s.skip(k + 1),
    )) as nat) == v * p - s[k] * p) by (nonlinear_arith);
}

/// The word at index i, taking absent positions as zero.
pub open spec fn word_at(s: Seq<u32>, i: int) -> u32 {
    if 0 <= i < s.len() {
        s[i]
    } else {
        0
    }
}

/// The value of the first i words, the whole value once i passes the length.
pub open spec fn mag_pref(s: Seq<u32>, i: int) -> nat {
    if 0 <= i <= s.len() {
        mag(s.take(i))
    } else {
        mag(s)
    }
}

pub proof fn lemma_mag_pref_zero(s: Seq<u32>)
    ensures
        mag_pref(s, 0) == 0,
{
    assert(s.take(0) =~= Seq::<u32>::empty());
}

pub proof fn lemma_mag_pref_full(s: Seq<u32>, i: int)
    requires
        i >= s.len(),
    ensures
        mag_pref(s, i) == mag(s),
{
    if i == s.len() {
        lemma_mag_take_full(s);
    }
}

/// Extending the prefix by one position adds the weighted word there.
pub proof fn lemma_mag_pref_succ(s: Seq<u32>, i: int)
    requires
        0 <= i,
    ensures
        mag_pref(s, i + 1) == mag_pref(s, i) + word_at(s, i) * pw(i as nat),
{
    if i < s.len() {
        lemma_mag_take_succ(s, i);
    } else {
        lemma_mag_pref_full(s, i);
        lemma_mag_pref_full(s, i + 1);
        assert(word_at(s, i) == 0);
    }
}

/// The only normalized sequence of value zero is the single word `[0]`.
pub proof fn lemma_norm_zero(s: Seq<u32>)
    requires
        is_norm(s),
        mag(s) == 0,
    ensures
        s =~= seq![0u32],
{
    lemma_mag_zero(s);
}

/// Comparing two equal-length sequences whose words agree from index i up:
/// their values differ exactly as the values of their low parts do when the
/// words at i differ.
pub proof fn lemma_mag_agree_above(a: Seq<u32>, b: Seq<u32>, i: int)
    requires
        a.len() == b.len(),
        0 <= i <= a.len(),
        forall|j: int| i <= j < a.len() ==> a[j] == b[j],
    ensures
        mag(a) - mag(a.take(i)) == mag(b) - mag(b.take(i)),
{
    lemma_mag_split(a, i);
    lemma_mag_split(b, i);
    assert(a.skip(i) =~= b.skip(i));
}

/// A word greater at the highest differing position decides the comparison.
pub proof fn lemma_mag_word_dominates(a: Seq<u32>, b: Seq<u32>, i: int)
    requires
        a.len() == b.len(),
        0 <= i < a.len(),
        a[i] > b[i],
        forall|j: int| i < j < a.len() ==> a[j] == b[j],
    ensures
        mag(a) > mag(b),
{
    lemma_mag_agree_above(a, b, i + 1);
    lemma_mag_take_succ(a, i);
    lemma_mag_take_succ(b, i);
    lemma_mag_bound(a.take(i));
    lemma_mag_bound(b.take(i));
    assert(a[i] * pw(i as nat) >= b[i] * pw(i as nat) + pw(i as nat)) by (nonlinear_arith)
        requires
            a[i] >= b[i] + 1,
            pw(i as nat) >= 0,
    ;
}

/// Of two normalized sequences the longer denotes the greater value.
pub proof fn lemma_mag_longer(a: Seq<u32>, b: Seq<u32>)
    requires
        is_norm(a),
        is_norm(b),
        a.len() > b.len(),
    ensures
        mag(a) > mag(b),
{
    lemma_mag_bound(b);
    lemma_mag_top_word(a);
    lemma_pw_mono(b.len(), (a.len() - 1) as nat);
}

} // verus!
