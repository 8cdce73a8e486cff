//! Identifier forms for generated test code: snake_case names turned into
//! camelCase and PascalCase.
use vstd::prelude::*;
use crate::text::{chars_of, lower_of, lowercase, string_of_chars};

verus! {

/// The pieces of `s` between underscores, as `str::split('_')` gives them:
/// an empty text has one empty piece, and two underscores in a row make an
/// empty piece between them.
pub open spec fn underscore_parts(s: Seq<char>) -> Seq<Seq<char>>
    decreases s.len(),
{
    if s.len() == 0 {
        seq![seq![]]
    } else {
        let rest = underscore_parts(s.drop_last());
        if s.last() == '_' {
            rest.push(seq![])
        } else {
            rest.update(rest.len() - 1, rest.last().push(s.last()))
        }
    }
}

proof fn lemma_parts_nonempty(s: Seq<char>)
    ensures
        underscore_parts(s).len() >= 1,
    decreases s.len(),
{
    if s.len() > 0 {
        lemma_parts_nonempty(s.drop_last());
    }
}

/// What `char::to_uppercase` makes of a character.
pub uninterp spec fn upper_of(c: char) -> Seq<char>;

/// Relies on `char::to_uppercase`: the upper-case form depends on the
/// character alone.
#[verifier::external_body]
fn uppercase_char(c: char) -> (r: String)
    ensures
        r@ == upper_of(c),
{
    c.to_uppercase().collect()
}

/// A word with its first character in upper case and the rest in lower
/// case; an empty word stays empty.
pub open spec fn title_word(w: Seq<char>) -> Seq<char> {
    if w.len() == 0 {
        seq![]
    } else {
        upper_of(w[0]) + lower_of(w.drop_first())
    }
}

/// The title forms of `words`, joined.
pub open spec fn joined_titles(words: Seq<Seq<char>>) -> Seq<char>
    decreases words.len(),
{
    if words.len() == 0 {
        seq![]
    } else {
        joined_titles(words.drop_last()) + title_word(words.last())
    }
}

/// PascalCase: every piece between underscores in title form.
pub open spec fn pascal_of(s: Seq<char>) -> Seq<char> {
    joined_titles(underscore_parts(s))
}

/// camelCase: the first piece in lower case, the others in title form.
pub open spec fn camel_of(s: Seq<char>) -> Seq<char> {
    let parts = underscore_parts(s);
    lower_of(parts[0]) + joined_titles(parts.drop_first())
}

/// The pieces of `s` between underscores.
fn split_underscores(s: &str) -> (r: Vec<Vec<char>>)
    ensures
        r@.len() == underscore_parts(s@).len(),
        forall|k: int| 0 <= k < r@.len() ==> (#[trigger] r@[k])@ == underscore_parts(s@)[k],
{
    let c = chars_of(s);
    let mut parts: Vec<Vec<char>> = Vec::new();
    parts.push(Vec::new());
    let mut i: usize = 0;
    proof {
        assert(c@.take(0) =~= seq![]);
        assert(underscore_parts(c@.take(0)) =~= seq![seq![]]);
    }
    while i < c.len()
        invariant
            c@ == s@,
            i <= c@.len(),
            parts@.len() == underscore_parts(c@.take(i as int)).len(),
            parts@.len() >= 1,
            forall|k: int| 0 <= k < parts@.len() ==> (#[trigger] parts@[k])@ == underscore_parts(c@.take(i as int))[k],
        decreases c@.len() - i,
    {
        proof {
            assert(c@.take(i + 1).drop_last() == c@.take(i as int));
            assert(c@.take(i + 1).last() == c@[i as int]);
        }
        let ghost before = parts@;
        if c[i] == '_' {
            parts.push(Vec::new());
            proof {
                assert forall|k: int| 0 <= k < parts@.len() implies (#[trigger] parts@[k])@ == underscore_parts(
                    c@.take(i + 1),
                )[k] by {
                    if k < before.len() {
                        assert(parts@[k] == before[k]);
                    }
                }
            }
        } else {
            let last = parts.len() - 1;
            let mut w = parts.remove(last);
            w.push(c[i]);
            parts.push(w);
            proof {
                assert forall|k: int| 0 <= k < parts@.len() implies (#[trigger] parts@[k])@ == underscore_parts(
                    c@.take(i + 1),
                )[k] by {
                    if k < last {
                        assert(parts@[k] == before[k]);
                    }
                }
            }
        }
        i = i + 1;
    }
    proof {
        assert(c@.take(c@.len() as int) =~= c@);
    }
    parts
}

/// The title form of a word.
fn title(w: &Vec<char>) -> (r: String)
    ensures
        r@ == title_word(w@),
{
    if w.len() == 0 {
        return String::new();
    }
    let mut rest: Vec<char> = Vec::new();
    let mut i: usize = 1;
    while i < w.len()
        invariant
            1 <= i <= w@.len(),
            rest@ == w@.subrange(1, i as int),
        decreases w@.len() - i,
    {
        rest.push(w[i]);
        proof {
            assert(rest@ =~= w@.subrange(1, i + 1));
        }
        i = i + 1;
    }
    proof {
        assert(w@.drop_first() =~= w@.subrange(1, w@.len() as int));
    }
    let mut r = uppercase_char(w[0]);
    let tail = string_of_chars(rest.as_slice());
    let lowered = lowercase(tail.as_str());
    r.append(lowered.as_str());
    r
}

/// The title forms of `parts` from position `from` on, joined.
fn join_titles(parts: &Vec<Vec<char>>, from: usize) -> (r: String)
    requires
        from <= parts@.len(),
    ensures
        r@ == joined_titles(parts@.map_values(|p: Vec<char>| p@).subrange(from as int, parts@.len() as int)),
{
    let ghost words = parts@.map_values(|p: Vec<char>| p@);
    let mut r = String::new();
    let mut i: usize = from;
    proof {
        assert(words.subrange(from as int, from as int) =~= seq![]);
    }
    while i < parts.len()
        invariant
            words == parts@.map_values(|p: Vec<char>| p@),
            from <= i <= parts@.len(),
            r@ == joined_titles(words.subrange(from as int, i as int)),
        decreases parts@.len() - i,
    {
        let t = title(&parts[i]);
        r.append(t.as_str());
        proof {
            assert(words.subrange(from as int, i + 1).drop_last() =~= words.subrange(from as int, i as int));
            assert(words.subrange(from as int, i + 1).last() == parts@[i as int]@);
        }
        i = i + 1;
    }
    r
}

/// `s` in PascalCase.
pub fn to_pascal_case(s: &str) -> (r: String)
    ensures
        r@ == pascal_of(s@),
{
    let parts = split_underscores(s);
    let r = join_titles(&parts, 0);
    proof {
        let words = parts@.map_values(|p: Vec<char>| p@);
        assert(words =~= underscore_parts(s@));
        assert(words.subrange(0, parts@.len() as int) =~= words);
    }
    r
}

/// `s` in camelCase.
pub fn to_camel_case(s: &str) -> (r: String)
    ensures
        r@ == camel_of(s@),
{
    let parts = split_underscores(s);
    proof {
        lemma_parts_nonempty(s@);
    }
    let first = string_of_chars(parts[0].as_slice());
    let mut r = lowercase(first.as_str());
    let rest = join_titles(&parts, 1);
    r.append(rest.as_str());
    proof {
        let words = parts@.map_values(|p: Vec<char>| p@);
        assert(words =~= underscore_parts(s@));
        assert(words.subrange(1, parts@.len() as int) =~= words.drop_first());
    }
    r
}

/// The first piece of a program name, before any underscore.
pub fn cut_program_name(s: &str) -> (r: String)
    ensures
        r@ == underscore_parts(s@)[0],
{
    let parts = split_underscores(s);
    proof {
        lemma_parts_nonempty(s@);
    }
    string_of_chars(parts[0].as_slice())
}

} // verus!
