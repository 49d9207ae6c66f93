//! Path matching over decoded names: trailing-slash trimming, equality,
//! and the descendant tests that directory listing is built on.

use vstd::prelude::*;

use crate::model::{
    count_slashes, is_descendant_name, is_direct_child_name, trim_trailing_slashes,
};

verus! {

/// `trim_trailing_slashes` keeps exactly the prefix before the trailing
/// slashes.
pub proof fn lemma_trim_slashes_is_prefix(s: Seq<char>, end: int)
    requires
        0 <= end <= s.len(),
        forall|j: int| end <= j < s.len() ==> s[j] == '/',
        end == 0 || s[end - 1] != '/',
    ensures
        trim_trailing_slashes(s) == s.subrange(0, end),
    decreases s.len(),
{
    if s.len() > end {
        assert(s.last() == '/');
        lemma_trim_slashes_is_prefix(s.drop_last(), end);
        assert(s.drop_last().subrange(0, end) =~= s.subrange(0, end));
    } else {
        if end == 0 {
            assert(s.subrange(0, 0) =~= s);
        } else {
            assert(s.subrange(0, end) =~= s);
        }
    }
}

/// `count_slashes` is non-negative.
pub proof fn lemma_count_slashes_nonneg(s: Seq<char>)
    ensures
        count_slashes(s) >= 0,
    decreases s.len(),
{
    if s.len() > 0 {
        lemma_count_slashes_nonneg(s.drop_last());
    }
}

/// A string counts zero slashes exactly where none of its characters is
/// one.
pub proof fn lemma_count_slashes_zero(s: Seq<char>)
    ensures
        (count_slashes(s) == 0) <==> (forall|i: int| 0 <= i < s.len() ==> s[i] != '/'),
    decreases s.len(),
{
    if s.len() > 0 {
        lemma_count_slashes_zero(s.drop_last());
        lemma_count_slashes_nonneg(s.drop_last());
        if count_slashes(s) == 0 {
            assert forall|i: int| 0 <= i < s.len() implies s[i] != '/' by {
                if i < s.len() - 1 {
                    assert(s.drop_last()[i] == s[i]);
                } else {
                    assert(s.last() == s[i]);
                }
            }
        } else {
            if forall|i: int| 0 <= i < s.len() ==> #[trigger] s[i] != '/' {
                assert(s.last() != '/');
                assert(forall|i: int| 0 <= i < s.len() - 1 ==> #[trigger] s.drop_last()[i] == s[i]);
                assert(count_slashes(s.drop_last()) == 0);
                assert(false);
            }
        }
    }
}

/// The index just past the last character that is not a trailing slash:
/// the length of the trimmed string.
pub(crate) fn trimmed_slashes_end(s: &str) -> (end: usize)
    ensures
        end <= s@.len(),
        trim_trailing_slashes(s@) == s@.subrange(0, end as int),
{
    let len = s.unicode_len();
    let mut end: usize = len;
    while end > 0 && s.get_char(end - 1) == '/'
        invariant
            end <= len,
            len == s@.len(),
            forall|j: int| end <= j < len ==> s@[j] == '/',
        decreases end,
    {
        end = end - 1;
    }
    proof {
        lemma_trim_slashes_is_prefix(s@, end as int);
    }
    end
}

/// Whether two strings hold the same characters.
pub(crate) fn str_eq(a: &str, b: &str) -> (r: bool)
    ensures
        r == (a@ == b@),
{
    let al = a.unicode_len();
    let bl = b.unicode_len();
    if al != bl {
        return false;
    }
    let mut i: usize = 0;
    while i < al
        invariant
            i <= al,
            al == a@.len(),
            al == b@.len(),
            forall|j: int| 0 <= j < i ==> a@[j] == b@[j],
        decreases al - i,
    {
        if a.get_char(i) != b.get_char(i) {
            return false;
        }
        i = i + 1;
    }
    proof {
        assert(a@ =~= b@);
    }
    true
}

/// Whether two strings are equal once the trailing slashes of each are
/// gone.
pub(crate) fn trimmed_eq(a: &str, b: &str) -> (r: bool)
    ensures
        r == (trim_trailing_slashes(a@) == trim_trailing_slashes(b@)),
{
    let ea = trimmed_slashes_end(a);
    let eb = trimmed_slashes_end(b);
    if ea != eb {
        proof {
            assert(trim_trailing_slashes(a@).len() == ea);
            assert(trim_trailing_slashes(b@).len() == eb);
        }
        return false;
    }
    let mut i: usize = 0;
    while i < ea
        invariant
            i <= ea,
            ea == eb,
            ea <= a@.len(),
            eb <= b@.len(),
            trim_trailing_slashes(a@) == a@.subrange(0, ea as int),
            trim_trailing_slashes(b@) == b@.subrange(0, eb as int),
            forall|j: int| 0 <= j < i ==> a@[j] == b@[j],
        decreases ea - i,
    {
        if a.get_char(i) != b.get_char(i) {
            proof {
                assert(trim_trailing_slashes(a@)[i as int] != trim_trailing_slashes(b@)[i as int]);
            }
            return false;
        }
        i = i + 1;
    }
    proof {
        assert(trim_trailing_slashes(a@) =~= trim_trailing_slashes(b@));
    }
    true
}

/// Whether `name` lies under the directory with full stored name `dir`.
pub(crate) fn is_descendant(name: &str, dir: &str) -> (r: bool)
    ensures
        r == is_descendant_name(name@, dir@),
{
    let nl = name.unicode_len();
    let dl = dir.unicode_len();
    if nl < dl {
        return false;
    }
    let mut i: usize = 0;
    while i < dl
        invariant
            i <= dl <= nl,
            nl == name@.len(),
            dl == dir@.len(),
            forall|j: int| 0 <= j < i ==> name@[j] == dir@[j],
        decreases dl - i,
    {
        if name.get_char(i) != dir.get_char(i) {
            proof {
                assert(name@.subrange(0, dl as int)[i as int] != dir@[i as int]);
            }
            return false;
        }
        i = i + 1;
    }
    proof {
        assert(name@.subrange(0, dl as int) =~= dir@);
    }
    if dl > 0 && dir.get_char(dl - 1) == '/' {
        true
    } else if nl == dl {
        true
    } else {
        name.get_char(dl) == '/'
    }
}

/// Whether `name` is a direct child of the directory with full stored
/// name `dir` (or that directory itself).
pub(crate) fn is_direct_child(name: &str, dir: &str) -> (r: bool)
    ensures
        r == is_direct_child_name(name@, dir@),
{
    if !is_descendant(name, dir) {
        return false;
    }
    let nl = name.unicode_len();
    let dl = dir.unicode_len();
    let ghost suffix = name@.subrange(dl as int, nl as int);
    let mut end: usize = nl;
    while end > dl && name.get_char(end - 1) == '/'
        invariant
            dl <= end <= nl,
            nl == name@.len(),
            dl == dir@.len(),
            forall|j: int| end <= j < nl ==> name@[j] == '/',
        decreases end,
    {
        end = end - 1;
    }
    proof {
        assert(forall|j: int|
            end - dl <= j < suffix.len() ==> #[trigger] suffix[j] == name@[j + dl]);
        assert(end - dl == 0 || suffix[end - dl - 1] != '/');
        lemma_trim_slashes_is_prefix(suffix, end - dl);
    }
    let mut i: usize = dl;
    while i < end
        invariant
            dl <= i <= end <= nl,
            nl == name@.len(),
            dl == dir@.len(),
            suffix == name@.subrange(dl as int, nl as int),
            trim_trailing_slashes(suffix) == suffix.subrange(0, end - dl),
            forall|j: int| dl <= j < i ==> name@[j] != '/',
        decreases end - i,
    {
        if name.get_char(i) == '/' {
            proof {
                lemma_count_slashes_zero(suffix.subrange(0, end - dl));
                assert(suffix.subrange(0, end - dl)[i - dl] == '/');
            }
            return false;
        }
        i = i + 1;
    }
    proof {
        lemma_count_slashes_zero(suffix.subrange(0, end - dl));
        assert(forall|j: int|
            0 <= j < end - dl ==> #[trigger] suffix.subrange(0, end - dl)[j] == name@[j + dl]);
    }
    true
}

} // verus!
