//! Output naming: splitting a display name into path components, and the
//! numeric suffix that tells apart files that would share a name.

use vstd::prelude::*;

verus! {

/// The byte `/`.
pub const SLASH: u8 = 47;

/// The byte `.`.
pub const DOT: u8 = 46;

/// The byte `_`.
pub const UNDERSCORE: u8 = 95;

/// `parts` joined with `/` between each two of them.
pub open spec fn join_slash(parts: Seq<Seq<u8>>) -> Seq<u8>
    decreases parts.len(),
{
    if parts.len() == 0 {
        Seq::empty()
    } else if parts.len() == 1 {
        parts[0]
    } else {
        join_slash(parts.drop_last()) + seq![SLASH] + parts.last()
    }
}

proof fn lemma_join_push_byte(parts: Seq<Seq<u8>>, cur: Seq<u8>, b: u8)
    ensures
        join_slash(parts.push(cur.push(b))) == join_slash(parts.push(cur)).push(b),
{
    let p1 = parts.push(cur.push(b));
    let p0 = parts.push(cur);
    assert(p1.drop_last() =~= parts);
    assert(p0.drop_last() =~= parts);
    if parts.len() == 0 {
        assert(join_slash(p1) == p1[0]);
    } else {
        assert(join_slash(p1) =~= join_slash(p0).push(b));
    }
}

/// The `/`-separated components of `name`, in order. Empty components are kept.
pub fn path_components(name: &[u8]) -> (r: Vec<Vec<u8>>)
    ensures
        r@.len() >= 1,
        join_slash(r@.map_values(|c: Vec<u8>| c@)) == name@,
        forall|i: int| 0 <= i < r@.len() ==> !(#[trigger] r@[i]@).contains(SLASH),
{
    let mut parts: Vec<Vec<u8>> = Vec::new();
    let mut cur: Vec<u8> = Vec::new();
    let mut i: usize = 0;
    while i < name.len()
        invariant
            i <= name@.len(),
            join_slash(parts@.map_values(|c: Vec<u8>| c@).push(cur@)) == name@.take(i as int),
            forall|j: int| 0 <= j < parts@.len() ==> !(#[trigger] parts@[j]@).contains(SLASH),
            !cur@.contains(SLASH),
        decreases name@.len() - i,
    {
        let ghost ps = parts@.map_values(|c: Vec<u8>| c@);
        let b = name[i];
        if b == SLASH {
            let ghost c = cur@;
            parts.push(cur);
            cur = Vec::new();
            proof {
                let ps2 = parts@.map_values(|c: Vec<u8>| c@);
                assert(ps2 =~= ps.push(c));
                let full = ps2.push(Seq::<u8>::empty());
                assert(full.drop_last() =~= ps2);
                assert(join_slash(full) =~= join_slash(ps2) + seq![SLASH]);
                assert(name@.take(i + 1) =~= name@.take(i as int).push(b));
                assert(cur@ =~= Seq::<u8>::empty());
            }
        } else {
            let ghost c = cur@;
            cur.push(b);
            proof {
                lemma_join_push_byte(ps, c, b);
                assert(name@.take(i + 1) =~= name@.take(i as int).push(b));
                assert forall|x: u8| cur@.contains(x) implies x != SLASH by {
                    let k = choose|k: int| 0 <= k < cur@.len() && cur@[k] == x;
                    if k < c.len() {
                        assert(c[k] == x);
                    }
                }
            }
        }
        i = i + 1;
    }
    let ghost ps = parts@.map_values(|c: Vec<u8>| c@);
    parts.push(cur);
    assert(parts@.map_values(|c: Vec<u8>| c@) =~= ps.push(cur@));
    assert(name@.take(name@.len() as int) =~= name@);
    parts
}

/// The index of the first `.` in `s`, or its length where it has none.
pub open spec fn first_dot(s: Seq<u8>) -> nat
    decreases s.len(),
{
    if s.len() == 0 {
        0
    } else if s[0] == DOT {
        0
    } else {
        1 + first_dot(s.drop_first())
    }
}

/// The decimal digits of `k`, most significant first.
pub open spec fn decimal(k: nat) -> Seq<u8>
    decreases k,
{
    if k < 10 {
        seq![(48 + k) as u8]
    } else {
        decimal(k / 10).push((48 + k % 10) as u8)
    }
}

/// `name` with `_` and the decimal form of `k` put right before its first `.`.
pub open spec fn suffixed(name: Seq<u8>, k: nat) -> Seq<u8> {
    name.take(first_dot(name) as int) + seq![UNDERSCORE] + decimal(k) + name.skip(
        first_dot(name) as int,
    )
}

proof fn lemma_first_dot(s: Seq<u8>)
    ensures
        first_dot(s) <= s.len(),
        first_dot(s) < s.len() ==> s[first_dot(s) as int] == DOT,
        forall|j: int| 0 <= j < first_dot(s) ==> s[j] != DOT,
    decreases s.len(),
{
    if s.len() > 0 && s[0] != DOT {
        lemma_first_dot(s.drop_first());
        assert forall|j: int| 0 <= j < first_dot(s) implies s[j] != DOT by {
            if j > 0 {
                assert(s[j] == s.drop_first()[j - 1]);
            }
        }
    }
}

fn decimal_of(k: u64) -> (r: Vec<u8>)
    ensures
        r@ == decimal(k as nat),
    decreases k,
{
    if k < 10 {
        let r = vec![48u8 + k as u8];
        assert(r@ =~= decimal(k as nat));
        r
    } else {
        let mut r = decimal_of(k / 10);
        r.push(48u8 + (k % 10) as u8);
        r
    }
}

/// A renamed file never takes the name it was renamed from.
pub proof fn lemma_suffixed_differs(name: Seq<u8>, k: nat)
    ensures
        suffixed(name, k) != name,
{
    lemma_first_dot(name);
    assert(suffixed(name, k).len() > name.len());
}

/// The name to try for the `multiplicity`-th clash of `base` (counting from 1):
/// `base` with `_<multiplicity>` before its first `.`. Past `file_count`
/// clashes there is none: the search has to give up.
pub fn collision_name(base: &[u8], multiplicity: u64, file_count: u64) -> (r: Option<Vec<u8>>)
    ensures
        multiplicity > file_count ==> r is None,
        multiplicity <= file_count ==> (r matches Some(v) && v@ == suffixed(base@, multiplicity as nat)),
{
    if multiplicity > file_count {
        return None;
    }
    let mut dot: usize = 0;
    while dot < base.len() && base[dot] != DOT
        invariant
            dot <= base@.len(),
            forall|j: int| 0 <= j < dot ==> base@[j] != DOT,
        decreases base@.len() - dot,
    {
        dot = dot + 1;
    }
    proof {
        lemma_first_dot(base@);
        if first_dot(base@) < dot {
            assert(base@[first_dot(base@) as int] == DOT);
        }
    }
    let mut r: Vec<u8> = Vec::new();
    let mut i: usize = 0;
    while i < dot
        invariant
            i <= dot <= base@.len(),
            r@ == base@.take(i as int),
        decreases dot - i,
    {
        r.push(base[i]);
        i = i + 1;
        assert(r@ =~= base@.take(i as int));
    }
    r.push(UNDERSCORE);
    let digits = decimal_of(multiplicity);
    let mut j: usize = 0;
    let ghost head = r@;
    while j < digits.len()
        invariant
            j <= digits@.len(),
            r@ == head + digits@.take(j as int),
        decreases digits@.len() - j,
    {
        r.push(digits[j]);
        j = j + 1;
        assert(r@ =~= head + digits@.take(j as int));
    }
    let ghost mid = r@;
    let mut k: usize = dot;
    while k < base.len()
        invariant
            dot <= k <= base@.len(),
            r@ == mid + base@.subrange(dot as int, k as int),
        decreases base@.len() - k,
    {
        r.push(base[k]);
        k = k + 1;
        assert(r@ =~= mid + base@.subrange(dot as int, k as int));
    }
    assert(digits@.take(digits@.len() as int) =~= digits@);
    assert(r@ =~= suffixed(base@, multiplicity as nat));
    Some(r)
}

} // verus!
