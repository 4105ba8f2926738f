//! Turning the path of a request into the relative path of a patch file.
use vstd::prelude::*;
use vstd::string::StrSliceExecFns;

verus! {

/// `s` with every leading `/` removed.
pub open spec fn without_leading_slashes(s: Seq<char>) -> Seq<char>
    decreases s.len(),
{
    if s.len() > 0 && s[0] == '/' {
        without_leading_slashes(s.drop_first())
    } else {
        s
    }
}

proof fn lemma_skip_slashes(s: Seq<char>, k: int)
    requires
        0 <= k <= s.len(),
        forall|i: int| 0 <= i < k ==> s[i] == '/',
    ensures
        without_leading_slashes(s) == without_leading_slashes(s.skip(k)),
    decreases k,
{
    if k > 0 {
        assert(s.drop_first().skip(k - 1) =~= s.skip(k));
        lemma_skip_slashes(s.drop_first(), k - 1);
    } else {
        assert(s.skip(0) =~= s);
    }
}

/// The relative path that a request for `url_path` asks for: the path with
/// its leading separators removed.
pub fn relative_request_path(url_path: &String) -> (r: String)
    ensures
        r@ == without_leading_slashes(url_path@),
{
    let s = url_path.as_str();
    let len = s.unicode_len();
    let mut k: usize = 0;
    while k < len && s.get_char(k) == '/'
        invariant
            len == s@.len(),
            s@ == url_path@,
            k <= len,
            forall|i: int| 0 <= i < k ==> s@[i] == '/',
        decreases len - k,
    {
        k = k + 1;
    }
    proof {
        lemma_skip_slashes(s@, k as int);
        assert(s@.subrange(k as int, len as int) =~= s@.skip(k as int));
    }
    s.substring_char(k, len).to_owned()
}

} // verus!
