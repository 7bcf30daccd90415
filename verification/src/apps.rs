//! The list of applications that the kernel hands to user programs.

use vstd::prelude::*;

verus! {

/// The pieces of `s` between NUL bytes (empty ones included).
pub open spec fn split_nul(s: Seq<u8>) -> Seq<Seq<u8>>
    decreases s.len(),
{
    if s.len() == 0 {
        seq![Seq::empty()]
    } else {
        let r = split_nul(s.drop_last());
        if s.last() == 0 {
            r.push(Seq::empty())
        } else {
            r.update(r.len() - 1, r.last().push(s.last()))
        }
    }
}

proof fn lemma_split_nul_nonempty(s: Seq<u8>)
    ensures
        split_nul(s).len() >= 1,
    decreases s.len(),
{
    if s.len() > 0 {
        lemma_split_nul_nonempty(s.drop_last());
    }
}

/// The non-empty names of `ps`, in order.
pub open spec fn nonempty(ps: Seq<Seq<u8>>) -> Seq<Seq<u8>>
    decreases ps.len(),
{
    if ps.len() == 0 {
        Seq::empty()
    } else {
        let r = nonempty(ps.drop_last());
        if ps.last().len() > 0 { r.push(ps.last()) } else { r }
    }
}

/// The names in a NUL-separated list: every non-empty name that a NUL
/// ends (bytes after the last NUL are not a name).
pub open spec fn app_names(s: Seq<u8>) -> Seq<Seq<u8>> {
    nonempty(split_nul(s).drop_last())
}

pub open spec fn names_view(v: Seq<Vec<u8>>) -> Seq<Seq<u8>> {
    v.map_values(|b: Vec<u8>| b@)
}

/// The application names in the first `n` bytes of `buf`, as the kernel
/// fills it; none when `n` is not positive.
pub fn list_apps(buf: &[u8], n: isize) -> (names: Vec<Vec<u8>>)
    requires
        n <= buf@.len(),
    ensures
        n <= 0 ==> names@.len() == 0,
        n > 0 ==> names_view(names@) == app_names(buf@.take(n as int)),
{
    let mut names: Vec<Vec<u8>> = Vec::new();
    if n <= 0 {
        return names;
    }
    let m = n as usize;
    let ghost s = buf@.take(m as int);
    let ghost mut done: Seq<Seq<u8>> = Seq::empty();
    let mut cur: Vec<u8> = Vec::new();
    let mut i: usize = 0;
    assert(s.take(0) =~= Seq::<u8>::empty());
    assert(split_nul(Seq::<u8>::empty()) =~= done.push(cur@));
    assert(names_view(names@) =~= nonempty(done));
    while i < m
        invariant
            m <= buf@.len(),
            s == buf@.take(m as int),
            i <= m,
            split_nul(s.take(i as int)) == done.push(cur@),
            names_view(names@) == nonempty(done),
        decreases m - i,
    {
        let b = buf[i];
        let ghost prev = s.take(i as int);
        assert(s.take(i + 1).drop_last() =~= prev);
        assert(s.take(i + 1).last() == b);
        if b == 0 {
            assert(split_nul(s.take(i + 1)) == split_nul(prev).push(Seq::<u8>::empty()));
            let ghost n0 = names_view(names@);
            if cur.len() > 0 {
                let mut name: Vec<u8> = Vec::new();
                std::mem::swap(&mut name, &mut cur);
                names.push(name);
                proof {
                    assert(names_view(names@) =~= n0.push(name@));
                    assert(done.push(name@).drop_last() =~= done);
                    done = done.push(name@);
                }
            } else {
                proof {
                    assert(done.push(cur@).drop_last() =~= done);
                    done = done.push(cur@);
                }
            }
            assert(cur@ =~= Seq::<u8>::empty());
            assert(split_nul(s.take(i + 1)) =~= done.push(cur@));
        } else {
            cur.push(b);
            proof {
                lemma_split_nul_nonempty(prev);
                assert(split_nul(s.take(i + 1)) =~= done.push(cur@));
            }
        }
        i = i + 1;
    }
    proof {
        assert(s.take(i as int) =~= s);
        assert(done.push(cur@).drop_last() =~= done);
    }
    names
}

} // verus!
