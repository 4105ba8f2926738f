//! Paths as sequences of components, compared the way `std::path` compares
//! them: repeated separators, a trailing separator and `.` after the first
//! component make no difference.
use vstd::prelude::*;

verus! {

/// The parts of `s` between `/` separators, empty ones included.
pub open spec fn split_parts(s: Seq<u8>) -> Seq<Seq<u8>>
    decreases s.len(),
{
    if s.len() == 0 {
        seq![seq![]]
    } else {
        let p = split_parts(s.drop_last());
        if s.last() == 47 {
            p.push(seq![])
        } else {
            p.update(p.len() - 1, p.last().push(s.last()))
        }
    }
}

/// A part after the first that names a component.
pub open spec fn kept_part(part: Seq<u8>) -> bool {
    part.len() > 0 && part != seq![46u8]
}

/// `kept_part` as a predicate.
pub open spec fn kept() -> spec_fn(Seq<u8>) -> bool {
    |x: Seq<u8>| kept_part(x)
}

/// The components of the path `s`: the first part as it stands (empty for a
/// path from the root, `.` for one from the current directory), then every
/// later part that is neither empty nor `.`.
pub open spec fn components(s: Seq<u8>) -> Seq<Seq<u8>> {
    if s.len() == 0 {
        seq![]
    } else {
        let p = split_parts(s);
        seq![p[0]] + p.drop_first().filter(kept())
    }
}

/// What a sequence of byte vectors holds.
pub open spec fn views(v: Seq<Vec<u8>>) -> Seq<Seq<u8>> {
    v.map_values(|x: Vec<u8>| x@)
}

proof fn lemma_split_parts_len(s: Seq<u8>)
    ensures
        split_parts(s).len() >= 1,
    decreases s.len(),
{
    if s.len() > 0 {
        lemma_split_parts_len(s.drop_last());
    }
}

proof fn lemma_filter_push(q: Seq<Seq<u8>>, x: Seq<u8>)
    ensures
        q.push(x).filter(kept()) == if kept_part(x) {
            q.filter(kept()).push(x)
        } else {
            q.filter(kept())
        },
        Seq::<Seq<u8>>::empty().filter(kept()) == Seq::<Seq<u8>>::empty(),
{
    reveal(Seq::filter);
    assert(q.push(x).drop_last() =~= q);
}

/// The parts of `s` that make the components so far, given the parts `p` of
/// what has been read.
spec fn done_parts(p: Seq<Seq<u8>>) -> Seq<Seq<u8>> {
    if p.len() <= 1 {
        seq![]
    } else {
        seq![p[0]] + p.subrange(1, p.len() - 1).filter(kept())
    }
}

/// The components of the path whose bytes are `s`.
pub fn path_components(s: &[u8]) -> (r: Vec<Vec<u8>>)
    ensures
        views(r@) == components(s@),
{
    let mut done: Vec<Vec<u8>> = Vec::new();
    let mut cur: Vec<u8> = Vec::new();
    let mut first = true;
    let mut i: usize = 0;
    assert(s@.take(0) =~= Seq::<u8>::empty());
    while i < s.len()
        invariant
            i <= s@.len(),
            split_parts(s@.take(i as int)).len() >= 1,
            cur@ == split_parts(s@.take(i as int)).last(),
            first == (split_parts(s@.take(i as int)).len() == 1),
            views(done@) == done_parts(split_parts(s@.take(i as int))),
        decreases s@.len() - i,
    {
        let ghost p = split_parts(s@.take(i as int));
        let c = s[i];
        assert(s@.take(i + 1).drop_last() =~= s@.take(i as int));
        if c == 47u8 {
            let ghost np = p.push(seq![]);
            assert(split_parts(s@.take(i + 1)) == np);
            let keep = first || !(cur.len() == 0 || (cur.len() == 1 && cur[0] == 46u8));
            proof {
                if !first {
                    assert(np.subrange(1, np.len() - 1) =~= p.subrange(1, p.len() - 1).push(
                        p.last(),
                    ));
                    lemma_filter_push(p.subrange(1, p.len() - 1), p.last());
                    if cur@.len() == 1 && cur@[0] == 46u8 {
                        assert(cur@ =~= seq![46u8]);
                    }
                    assert(keep == kept_part(p.last()));
                } else {
                    assert(np.subrange(1, np.len() - 1) =~= Seq::<Seq<u8>>::empty());
                    lemma_filter_push(Seq::<Seq<u8>>::empty(), p[0]);
                    assert(p[0] == p.last());
                }
            }
            let ghost before = done@;
            if keep {
                done.push(cur);
                proof {
                    assert(views(done@) =~= views(before).push(p.last()));
                }
            }
            assert(views(done@) =~= done_parts(np));
            cur = Vec::new();
            first = false;
        } else {
            let ghost np = p.update(p.len() - 1, p.last().push(c));
            assert(split_parts(s@.take(i + 1)) == np);
            cur.push(c);
            assert(np.len() > 1 ==> np.subrange(1, np.len() - 1) =~= p.subrange(1, p.len() - 1));
            assert(views(done@) =~= done_parts(np));
        }
        i = i + 1;
    }
    assert(s@.take(i as int) =~= s@);
    let ghost p = split_parts(s@);
    if s.len() == 0 {
        assert(views(done@) =~= components(s@));
        return done;
    }
    let keep = first || !(cur.len() == 0 || (cur.len() == 1 && cur[0] == 46u8));
    proof {
        if !first {
            assert(p.drop_first() =~= p.subrange(1, p.len() - 1).push(p.last()));
            lemma_filter_push(p.subrange(1, p.len() - 1), p.last());
            if cur@.len() == 1 && cur@[0] == 46u8 {
                assert(cur@ =~= seq![46u8]);
            }
        } else {
            assert(p.drop_first() =~= Seq::<Seq<u8>>::empty());
            lemma_filter_push(Seq::<Seq<u8>>::empty(), p[0]);
            assert(p[0] == p.last());
        }
    }
    let ghost before = done@;
    if keep {
        done.push(cur);
        assert(views(done@) =~= views(before).push(p.last()));
    }
    assert(views(done@) =~= components(s@));
    done
}

/// Whether two byte strings are equal.
pub fn bytes_equal(a: &Vec<u8>, b: &Vec<u8>) -> (r: bool)
    ensures
        r == (a@ == b@),
{
    if a.len() != b.len() {
        return false;
    }
    let mut i: usize = 0;
    while i < a.len()
        invariant
            a@.len() == b@.len(),
            i <= a@.len(),
            forall|k: int| 0 <= k < i ==> a@[k] == b@[k],
        decreases a@.len() - i,
    {
        if a[i] != b[i] {
            assert(a@[i as int] != b@[i as int]);
            return false;
        }
        i = i + 1;
    }
    assert(a@ =~= b@);
    true
}

} // verus!
