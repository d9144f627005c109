//! Package lists given on the command line.

use crate::text::{distinct_copy, distinct_texts, position_of, text_set, texts};
use vstd::prelude::*;

verus! {

/// The comma-separated fields of a text; a text without commas is one field.
pub open spec fn comma_fields(s: Seq<char>) -> Seq<Seq<char>>
    decreases s.len(),
{
    if s.len() == 0 {
        seq![Seq::empty()]
    } else {
        let rest = comma_fields(s.drop_last());
        if s.last() == ',' {
            rest.push(Seq::empty())
        } else {
            rest.update(rest.len() - 1, rest.last().push(s.last()))
        }
    }
}

proof fn lemma_comma_fields_nonempty(s: Seq<char>)
    ensures
        comma_fields(s).len() >= 1,
    decreases s.len(),
{
    if s.len() > 0 {
        lemma_comma_fields_nonempty(s.drop_last());
    }
}

/// Splits `arg` at each comma.
fn split_commas(arg: &str) -> (r: Vec<String>)
    ensures
        texts(r@) == comma_fields(arg@),
{
    let n = arg.unicode_len();
    let mut fields: Vec<String> = Vec::new();
    let mut start: usize = 0;
    assert(arg@.subrange(0, 0) =~= Seq::<char>::empty());
    assert(texts(fields@).push(arg@.subrange(0, 0)) =~= seq![Seq::<char>::empty()]);
    for i in 0..n
        invariant
            n == arg@.len(),
            start <= i,
            comma_fields(arg@.subrange(0, i as int)) == texts(fields@).push(
                arg@.subrange(start as int, i as int),
            ),
    {
        let ghost pre = arg@.subrange(0, i as int);
        let ghost cur = arg@.subrange(0, i + 1);
        assert(cur.drop_last() == pre);
        proof {
            lemma_comma_fields_nonempty(pre);
        }
        let c = arg.get_char(i);
        let ghost before = fields@;
        if c == ',' {
            let piece = arg.substring_char(start, i);
            fields.push(String::from_str(piece));
            assert(texts(fields@) =~= texts(before).push(arg@.subrange(start as int, i as int)));
            start = i + 1;
            assert(arg@.subrange(start as int, i + 1) =~= Seq::<char>::empty());
        } else {
            assert(arg@.subrange(start as int, i + 1) =~= arg@.subrange(start as int, i as int).push(c));
        }
    }
    assert(arg@.subrange(0, n as int) == arg@);
    let piece = arg.substring_char(start, n);
    let ghost before = fields@;
    fields.push(String::from_str(piece));
    assert(texts(fields@) =~= texts(before).push(arg@.subrange(start as int, n as int)));
    fields
}

/// The set of package names in a comma-separated list, each name once.
pub fn parse_crate_list(arg: &str) -> (r: Vec<String>)
    ensures
        distinct_texts(r@),
        text_set(r@) == comma_fields(arg@).to_set(),
{
    let fields = split_commas(arg);
    let r = distinct_copy(&fields);
    assert(text_set(fields@) =~= comma_fields(arg@).to_set()) by {
        assert forall|x: Seq<char>| text_set(fields@).contains(x) implies comma_fields(arg@).to_set().contains(x) by {
            let i = choose|i: int| 0 <= i < fields@.len() && fields@[i]@ == x;
            assert(texts(fields@)[i] == x);
        }
        assert forall|x: Seq<char>| comma_fields(arg@).to_set().contains(x) implies text_set(fields@).contains(x) by {
            let i = choose|i: int| 0 <= i < comma_fields(arg@).len() && comma_fields(arg@)[i] == x;
            assert(texts(fields@)[i] == fields@[i]@);
        }
    }
    r
}

/// The packages that a command names: a list of names, or all packages but
/// the excluded ones.
pub struct CrateList {
    pub crates: Vec<String>,
    pub all: bool,
    pub exclude: Vec<String>,
}

pub open spec fn not_excluded(exclude: Set<Seq<char>>) -> spec_fn(Seq<char>) -> bool {
    |x: Seq<char>| !exclude.contains(x)
}

impl CrateList {
    /// The names the command applies to. With `all`, these are
    /// `all_crate_names` without the excluded ones, in order; otherwise the
    /// names given.
    pub fn to_list(&self, all_crate_names: &Vec<String>) -> (r: Vec<String>)
        ensures
            texts(r@) == if self.all {
                texts(all_crate_names@).filter(not_excluded(text_set(self.exclude@)))
            } else {
                texts(self.crates@)
            },
    {
        let ghost ex = text_set(self.exclude@);
        let source = if self.all {
            all_crate_names
        } else {
            &self.crates
        };
        let ghost src = texts(source@);
        let mut r: Vec<String> = Vec::new();
        let n = source.len();
        for i in 0..n
            invariant
                n == source@.len(),
                src == texts(source@),
                ex == text_set(self.exclude@),
                self.all ==> texts(r@) == src.subrange(0, i as int).filter(not_excluded(ex)),
                !self.all ==> texts(r@) == src.subrange(0, i as int),
        {
            let x = &source[i];
            assert(src.subrange(0, i + 1) == src.subrange(0, i as int).push(x@));
            proof {
                src.subrange(0, i as int).lemma_filter_push(x@, not_excluded(ex));
            }
            let ghost before = r@;
            let keep = if self.all {
                match position_of(&self.exclude, x.as_str()) {
                    Some(_) => false,
                    None => true,
                }
            } else {
                true
            };
            if keep {
                r.push(x.clone());
                assert(texts(r@) =~= texts(before).push(x@));
            }
        }
        assert(src.subrange(0, n as int) == src);
        r
    }
}

} // verus!
