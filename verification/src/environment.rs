//! Expansion of `%NAME%` references to environment variables in shortcut
//! targets. The references are found here, their values are looked up by
//! the caller, and the expansion puts them in place.

use vstd::prelude::*;
use crate::text::{chars_of, string_from_chars};

verus! {

broadcast use vstd::string::group_string_axioms;

/// The index of the first occurrence of `c` in `s`, or -1.
pub open spec fn first_index(s: Seq<char>, c: char) -> int
    decreases s.len(),
{
    if s.len() == 0 {
        -1
    } else if s[0] == c {
        0
    } else if first_index(s.drop_first(), c) < 0 {
        -1
    } else {
        first_index(s.drop_first(), c) + 1
    }
}

proof fn lemma_first_index_is(s: Seq<char>, c: char, r: int)
    requires
        -1 <= r < s.len(),
        r >= 0 ==> s[r] == c,
        forall|j: int| 0 <= j < s.len() && (r < 0 || j < r) ==> #[trigger] s[j] != c,
    ensures
        first_index(s, c) == r,
    decreases s.len(),
{
    if s.len() > 0 && r != 0 {
        assert(s[0] != c);
        let rest = s.drop_first();
        assert forall|j: int| 0 <= j < rest.len() && (r - 1 < 0 || j < r - 1) implies #[trigger] rest[j]
            != c by {
            assert(rest[j] == s[j + 1]);
        }
        if r > 0 {
            lemma_first_index_is(rest, c, r - 1);
        } else {
            lemma_first_index_is(rest, c, -1);
        }
    }
}

/// The names referenced in `s`: the texts between pairs of `%`, taken from
/// left to right; an unpaired `%` starts no reference.
pub open spec fn env_references(s: Seq<char>) -> Seq<Seq<char>>
    decreases s.len(),
{
    let i = first_index(s, '%');
    if i < 0 || i >= s.len() {
        seq![]
    } else {
        let after = s.skip(i + 1);
        let j = first_index(after, '%');
        if j < 0 || j >= after.len() {
            seq![]
        } else {
            seq![after.take(j)] + env_references(after.skip(j + 1))
        }
    }
}

/// `s` with its references replaced, in order, by the given values; a
/// reference whose value is absent (or beyond the values) stays as written.
/// Where the scan meets a `%` that no later `%` closes, the text from where
/// the scan stood is written out and then written out once more.
pub open spec fn expand_env(s: Seq<char>, values: Seq<Option<Seq<char>>>) -> Seq<char>
    decreases s.len(),
{
    let i = first_index(s, '%');
    if i < 0 || i >= s.len() {
        s
    } else {
        let after = s.skip(i + 1);
        let j = first_index(after, '%');
        if j < 0 || j >= after.len() {
            s + s
        } else {
            let name = after.take(j);
            let value = if values.len() > 0 {
                values[0]
            } else {
                None
            };
            let rest = if values.len() > 0 {
                values.drop_first()
            } else {
                values
            };
            s.take(i) + match value {
                Some(v) => v,
                None => seq!['%'] + name + seq!['%'],
            } + expand_env(after.skip(j + 1), rest)
        }
    }
}

/// Every `%` that the scan of `s` meets is closed by a later `%`.
pub open spec fn percents_paired(s: Seq<char>) -> bool
    decreases s.len(),
{
    let i = first_index(s, '%');
    if i < 0 || i >= s.len() {
        true
    } else {
        let after = s.skip(i + 1);
        let j = first_index(after, '%');
        if j < 0 || j >= after.len() {
            false
        } else {
            percents_paired(after.skip(j + 1))
        }
    }
}

pub open spec fn option_texts(values: Seq<Option<String>>) -> Seq<Option<Seq<char>>> {
    values.map_values(
        |v: Option<String>|
            match v {
                Some(s) => Some(s@),
                None => None,
            },
    )
}

/// The first `c` at or after `from`.
fn find_char(chars: &Vec<char>, from: usize, c: char) -> (found: Option<usize>)
    requires
        from <= chars@.len(),
    ensures
        match found {
            Some(i) => from <= i < chars@.len() && i - from == first_index(
                chars@.skip(from as int),
                c,
            ),
            None => first_index(chars@.skip(from as int), c) == -1,
        },
{
    let mut i = from;
    while i < chars.len()
        invariant
            from <= i <= chars@.len(),
            forall|j: int| from <= j < i ==> #[trigger] chars@[j] != c,
        decreases chars.len() - i,
    {
        if chars[i] == c {
            proof {
                let s = chars@.skip(from as int);
                assert forall|j: int| 0 <= j < s.len() && (j < i - from) implies #[trigger] s[j]
                    != c by {
                    assert(s[j] == chars@[from + j]);
                }
                lemma_first_index_is(s, c, i - from);
            }
            return Some(i);
        }
        i = i + 1;
    }
    proof {
        let s = chars@.skip(from as int);
        assert forall|j: int| 0 <= j < s.len() implies #[trigger] s[j] != c by {
            assert(s[j] == chars@[from + j]);
        }
        lemma_first_index_is(s, c, -1);
    }
    None
}

fn push_range(result: &mut String, chars: &Vec<char>, from: usize, to: usize)
    requires
        from <= to <= chars@.len(),
    ensures
        final(result)@ == old(result)@ + chars@.subrange(from as int, to as int),
{
    let mut i = from;
    while i < to
        invariant
            from <= i <= to,
            to <= chars@.len(),
            result@ == old(result)@ + chars@.subrange(from as int, i as int),
        decreases to - i,
    {
        result.push(chars[i]);
        proof {
            assert(result@ =~= old(result)@ + chars@.subrange(from as int, i + 1));
        }
        i = i + 1;
    }
}

/// How the text from a position on begins: the positions of the `%` that
/// opens the next reference and of the `%` that closes it, when both exist.
proof fn lemma_reference_at(s: Seq<char>, pos: int, start: int, end: int)
    requires
        0 <= pos <= start < end < s.len(),
        start - pos == first_index(s.skip(pos), '%'),
        end - (start + 1) == first_index(s.skip(start + 1), '%'),
    ensures
        first_index(s.skip(pos), '%') == start - pos,
        s.skip(pos).skip(start - pos + 1) == s.skip(start + 1),
        s.skip(start + 1).take(end - (start + 1)) == s.subrange(start + 1, end),
        s.skip(start + 1).skip(end - (start + 1) + 1) == s.skip(end + 1),
        s.skip(pos).take(start - pos) == s.subrange(pos, start),
{
    assert(s.skip(pos).skip(start - pos + 1) =~= s.skip(start + 1));
    assert(s.skip(start + 1).take(end - (start + 1)) =~= s.subrange(start + 1, end));
    assert(s.skip(start + 1).skip(end - (start + 1) + 1) =~= s.skip(end + 1));
    assert(s.skip(pos).take(start - pos) =~= s.subrange(pos, start));
}

/// The names of the environment variables that `value` refers to, in order.
pub fn environment_variable_names(value: &str) -> (names: Vec<String>)
    ensures
        names@.map_values(|n: String| n@) == env_references(value@),
{
    let chars = chars_of(value);
    let ghost s = value@;
    let mut names: Vec<String> = Vec::new();
    let mut pos: usize = 0;
    let n = chars.len();
    proof {
        assert(s.skip(0) =~= s);
        assert(names@.map_values(|n: String| n@) =~= Seq::<Seq<char>>::empty());
    }
    loop
        invariant
            pos <= chars@.len(),
            n == chars@.len(),
            chars@ == s,
            s == value@,
            names@.map_values(|n: String| n@) + env_references(s.skip(pos as int))
                == env_references(s),
        decreases chars@.len() - pos,
    {
        let start = match find_char(&chars, pos, '%') {
            Some(i) => i,
            None => {
                proof {
                    assert(names@.map_values(|n: String| n@) =~= env_references(s));
                }
                return names;
            },
        };
        let end = match find_char(&chars, start + 1, '%') {
            Some(j) => j,
            None => {
                proof {
                    assert(s.skip(pos as int).skip(start - pos + 1) =~= s.skip(start + 1));
                    assert(names@.map_values(|n: String| n@) =~= env_references(s));
                }
                return names;
            },
        };
        proof {
            lemma_reference_at(s, pos as int, start as int, end as int);
        }
        let name = string_from_chars(&chars.as_slice()[start + 1..end]);
        let ghost before = names@;
        names.push(name);
        proof {
            assert(names@.map_values(|n: String| n@) =~= before.map_values(|n: String| n@).push(
                s.subrange(start + 1, end as int),
            ));
        }
        pos = end + 1;
    }
}

/// `value` with each reference `%NAME%` replaced by the value given for
/// it: `values[k]` is the value of the `k`-th name that
/// `environment_variable_names` finds, `None` when the variable is not set.
/// A reference without a value stays as written; from an unpaired `%` on,
/// the text from the end of the last reference is written out twice.
pub fn expand_environment_variables(value: &str, values: &[Option<String>]) -> (expanded: String)
    ensures
        expanded@ == expand_env(value@, option_texts(values@)),
{
    let chars = chars_of(value);
    let ghost s = value@;
    let ghost all = option_texts(values@);
    let mut result = String::new();
    let mut pos: usize = 0;
    let mut k: usize = 0;
    let ghost mut rest: Seq<Option<Seq<char>>> = all;
    let n = chars.len();
    proof {
        assert(s.skip(0) =~= s);
        assert(all.skip(0) =~= all);
    }
    loop
        invariant
            pos <= chars@.len(),
            n == chars@.len(),
            k <= values@.len(),
            all.len() == values@.len(),
            chars@ == s,
            s == value@,
            all == option_texts(values@),
            rest == all.skip(k as int),
            result@ + expand_env(s.skip(pos as int), rest) == expand_env(s, all),
        decreases chars@.len() - pos,
    {
        let start = match find_char(&chars, pos, '%') {
            Some(i) => i,
            None => {
                push_range(&mut result, &chars, pos, chars.len());
                proof {
                    assert(s.skip(pos as int) =~= chars@.subrange(pos as int, chars@.len() as int));
                }
                return result;
            },
        };
        let end = match find_char(&chars, start + 1, '%') {
            Some(j) => j,
            None => {
                push_range(&mut result, &chars, pos, chars.len());
                push_range(&mut result, &chars, pos, chars.len());
                proof {
                    assert(s.skip(pos as int).skip(start - pos + 1) =~= s.skip(start + 1));
                    assert(s.skip(pos as int) =~= chars@.subrange(pos as int, chars@.len() as int));
                }
                return result;
            },
        };
        proof {
            lemma_reference_at(s, pos as int, start as int, end as int);
        }
        let ghost before = result@;
        push_range(&mut result, &chars, pos, start);
        let found: Option<&String> = if k < values.len() {
            match &values[k] {
                Some(v) => Some(v),
                None => None,
            }
        } else {
            None
        };
        match found {
            Some(v) => {
                result.append(v.as_str());
            },
            None => {
                result.push('%');
                push_range(&mut result, &chars, start + 1, end);
                result.push('%');
            },
        }
        proof {
            let value_k = if rest.len() > 0 {
                rest[0]
            } else {
                None
            };
            if k < values@.len() {
                assert(rest[0] == all[k as int]);
            }
            let replacement = match value_k {
                Some(v) => v,
                None => seq!['%'] + s.subrange(start + 1, end as int) + seq!['%'],
            };
            assert(result@ =~= before + s.subrange(pos as int, start as int) + replacement);
            let next_rest = if rest.len() > 0 {
                rest.drop_first()
            } else {
                rest
            };
            assert(expand_env(s.skip(pos as int), rest) == s.subrange(pos as int, start as int)
                + replacement + expand_env(s.skip(end + 1), next_rest));
            if k < values@.len() {
                assert(next_rest =~= all.skip(k + 1));
            } else {
                assert(next_rest =~= all.skip(k as int));
            }
            rest = next_rest;
        }
        pos = end + 1;
        if k < values.len() {
            k = k + 1;
        }
    }
}

} // verus!
