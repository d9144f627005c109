//! Small operations on text.

use vstd::prelude::*;

verus! {

/// Whether the two texts hold the same characters.
pub fn same_text(a: &str, b: &str) -> (r: bool)
    ensures
        r == (a@ == b@),
{
    let n = a.unicode_len();
    if n != b.unicode_len() {
        return false;
    }
    for i in 0..n
        invariant
            n == a@.len(),
            n == b@.len(),
            forall|k: int| 0 <= k < i ==> a@[k] == b@[k],
    {
        if a.get_char(i) != b.get_char(i) {
            return false;
        }
    }
    assert(a@ =~= b@);
    true
}

/// The position of `x` in `v`, if it is there.
pub fn position_of(v: &Vec<String>, x: &str) -> (r: Option<usize>)
    ensures
        match r {
            Some(k) => k < v@.len() && v@[k as int]@ == x@,
            None => forall|i: int| 0 <= i < v@.len() ==> v@[i]@ != x@,
        },
{
    let n = v.len();
    for i in 0..n
        invariant
            n == v@.len(),
            forall|j: int| 0 <= j < i ==> v@[j]@ != x@,
    {
        if same_text(v[i].as_str(), x) {
            return Some(i);
        }
    }
    None
}

/// The characters of each text.
pub open spec fn texts(s: Seq<String>) -> Seq<Seq<char>> {
    s.map_values(|x: String| x@)
}

/// The set of texts in a sequence.
pub open spec fn text_set(s: Seq<String>) -> Set<Seq<char>> {
    Set::new(|x: Seq<char>| exists|i: int| 0 <= i < s.len() && s[i]@ == x)
}

/// No text occurs twice.
pub open spec fn distinct_texts(s: Seq<String>) -> bool {
    forall|i: int, j: int| 0 <= i < s.len() && 0 <= j < s.len() && i != j ==> s[i]@ != s[j]@
}

/// The texts of `v`, each once.
pub fn distinct_copy(v: &Vec<String>) -> (r: Vec<String>)
    ensures
        distinct_texts(r@),
        text_set(r@) == text_set(v@),
{
    let mut u: Vec<String> = Vec::new();
    let n = v.len();
    for i in 0..n
        invariant
            n == v@.len(),
            distinct_texts(u@),
            text_set(u@) == text_set(v@.subrange(0, i as int)),
    {
        let x = &v[i];
        let ghost before = u@;
        let ghost pre = v@.subrange(0, i as int);
        let ghost post = v@.subrange(0, i + 1);
        assert forall|y: Seq<char>| text_set(post).contains(y) <==> (text_set(pre).contains(y) || y == x@) by {
            if text_set(post).contains(y) {
                let j = choose|j: int| 0 <= j < post.len() && post[j]@ == y;
                if j < i {
                    assert(pre[j] == post[j]);
                }
            }
            if text_set(pre).contains(y) {
                let j = choose|j: int| 0 <= j < pre.len() && pre[j]@ == y;
                assert(pre[j] == post[j]);
            }
            if y == x@ {
                assert(post[i as int] == *x);
            }
        }
        match position_of(&u, x.as_str()) {
            Some(_) => {
                assert(text_set(post) =~= text_set(pre));
            },
            None => {
                u.push(x.clone());
                assert forall|y: Seq<char>| text_set(u@).contains(y) <==> (text_set(before).contains(y) || y == x@) by {
                    if text_set(u@).contains(y) {
                        let j = choose|j: int| 0 <= j < u@.len() && u@[j]@ == y;
                        if j < before.len() {
                            assert(before[j] == u@[j]);
                        }
                    }
                    if text_set(before).contains(y) {
                        let j = choose|j: int| 0 <= j < before.len() && before[j]@ == y;
                        assert(before[j] == u@[j]);
                    }
                    if y == x@ {
                        assert(u@[before.len() as int] == *x);
                    }
                }
                assert(text_set(before) == text_set(pre));
                assert forall|y: Seq<char>| text_set(u@).contains(y) <==> text_set(post).contains(y) by {
                    assert(text_set(u@).contains(y) <==> (text_set(before).contains(y) || y == x@));
                    assert(text_set(post).contains(y) <==> (text_set(pre).contains(y) || y == x@));
                }
                assert(text_set(u@) =~= text_set(post));
            },
        }
    }
    assert(v@.subrange(0, n as int) == v@);
    u
}

} // verus!
