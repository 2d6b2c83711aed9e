use vstd::prelude::*;
use vstd::string::*;

verus! {

/// The characters after the last occurrence of `c` in `s`, or `None` when
/// `c` does not occur.
pub open spec fn suffix_after_last(s: Seq<char>, c: char) -> Option<Seq<char>>
    decreases s.len(),
{
    if s.len() == 0 {
        None
    } else if s.last() == c {
        Some(Seq::empty())
    } else {
        match suffix_after_last(s.drop_last(), c) {
            Some(t) => Some(t.push(s.last())),
            None => None,
        }
    }
}

/// The final component of a `/`-separated path.
pub open spec fn file_name_of(path: Seq<char>) -> Seq<char> {
    match suffix_after_last(path, '/') {
        Some(t) => t,
        None => path,
    }
}

/// The text after the last dot of a file name; empty when it has no dot.
pub open spec fn extension_of(name: Seq<char>) -> Seq<char> {
    match suffix_after_last(name, '.') {
        Some(t) => t,
        None => Seq::empty(),
    }
}

proof fn lemma_suffix_shape(s: Seq<char>, c: char)
    ensures
        match suffix_after_last(s, c) {
            Some(t) => t.len() < s.len() && t == s.subrange(s.len() - t.len(), s.len() as int)
                && s[s.len() - t.len() - 1] == c
                && forall|j: int| s.len() - t.len() <= j < s.len() ==> s[j] != c,
            None => forall|j: int| 0 <= j < s.len() ==> s[j] != c,
        },
    decreases s.len(),
{
    if s.len() > 0 {
        lemma_suffix_shape(s.drop_last(), c);
        let d = s.drop_last();
        assert forall|j: int| 0 <= j < d.len() implies d[j] == s[j] by {}
        match suffix_after_last(s.drop_last(), c) {
            Some(t) => {
                assert(t.push(s.last()) =~= s.subrange(s.len() - t.len() - 1, s.len() as int));
            },
            None => {},
        }
        if s.last() == c {
            assert(Seq::<char>::empty() =~= s.subrange(s.len() as int, s.len() as int));
        }
    }
}

/// Finds the position just past the last `c` in `s`, if any.
fn position_after_last(s: &str, c: char) -> (r: Option<usize>)
    ensures
        match suffix_after_last(s@, c) {
            Some(t) => t.len() < s@.len() && r == Some((s@.len() - t.len()) as usize),
            None => r.is_none(),
        },
{
    let n = s.unicode_len();
    let mut i: usize = n;
    while i > 0
        invariant
            i <= n == s@.len(),
            forall|j: int| i <= j < n ==> s@[j] != c,
        decreases i,
    {
        if s.get_char(i - 1) == c {
            proof {
                lemma_suffix_shape(s@, c);
                if let Some(t) = suffix_after_last(s@, c) {
                    let k = s@.len() - t.len();
                    if k < i {
                        assert(s@[i - 1] != c);
                    }
                    if k > i {
                        assert(s@[k - 1] != c);
                    }
                }
            }
            return Some(i);
        }
        i = i - 1;
    }
    proof { lemma_suffix_shape(s@, c); }
    None
}

/// The final component of `path`.
pub fn file_name(path: &str) -> (r: String)
    ensures
        r@ == file_name_of(path@),
{
    proof { lemma_suffix_shape(path@, '/'); }
    match position_after_last(path, '/') {
        Some(k) => path.substring_char(k, path.unicode_len()).to_owned(),
        None => path.to_owned(),
    }
}

/// The extension of the file name `name`.
pub fn extension(name: &str) -> (r: String)
    ensures
        r@ == extension_of(name@),
{
    proof { lemma_suffix_shape(name@, '.'); }
    let n = name.unicode_len();
    let p = position_after_last(name, '.');
    match p {
        Some(k) => name.substring_char(k, n).to_owned(),
        None => String::new(),
    }
}

} // verus!
