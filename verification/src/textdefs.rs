//! The flat-text definitions loader: one `key=value` definition per
//! line, where a doubled `==` stands for a literal `=` inside a key or
//! value.  A line with anything other than exactly one unescaped `=`
//! separator (a blank line, a line of only `==`, a line with two lone
//! `=`) is skipped.

use crate::chars::find_char;
use crate::chars::find_char_exec;
use crate::chars::str_to_chars;
use crate::defs::lower_of;
use crate::defs::Defs;
use vstd::prelude::*;

verus! {

/// The positions of the unescaped `=` separators of `l`, scanning from
/// `i`: a doubled `==` is consumed as an escape and separates nothing.
pub open spec fn seps(l: Seq<char>, i: int) -> Seq<int>
    decreases l.len() - i,
{
    if i >= l.len() {
        Seq::empty()
    } else if l[i] == '=' {
        if i + 1 < l.len() && l[i + 1] == '=' {
            seps(l, i + 2)
        } else {
            seq![i] + seps(l, i + 1)
        }
    } else {
        seps(l, i + 1)
    }
}

/// `l` from `i` on with every doubled `==` collapsed to a single `=`.
pub open spec fn unescape(l: Seq<char>, i: int) -> Seq<char>
    decreases l.len() - i,
{
    if i >= l.len() {
        Seq::empty()
    } else if l[i] == '=' && i + 1 < l.len() && l[i + 1] == '=' {
        seq!['='] + unescape(l, i + 2)
    } else {
        seq![l[i]] + unescape(l, i + 1)
    }
}

/// The raw key and value of a definitions line: the line split at its
/// separator and unescaped, or nothing if the line does not have exactly
/// one unescaped `=`.
pub open spec fn parse_line(l: Seq<char>) -> Option<(Seq<char>, Seq<char>)> {
    if seps(l, 0).len() == 1 {
        let p = seps(l, 0)[0];
        Some((unescape(l.subrange(0, p), 0), unescape(l.subrange(p + 1, l.len() as int), 0)))
    } else {
        None
    }
}

/// The mapping described by the definitions text `s` from offset `cur`
/// on: each valid line binds its canonicalized key, and a later line
/// overwrites an earlier one with the same canonical key.
pub open spec fn text_defs_from(s: Seq<char>, cur: int) -> Map<Seq<char>, Seq<char>>
    decreases s.len() - cur,
    via text_defs_from_decreases
{
    if cur >= s.len() {
        Map::empty()
    } else {
        match find_char(s, cur, '\n') {
            Some(e) => {
                let rest = text_defs_from(s, e + 1);
                match parse_line(s.subrange(cur, e)) {
                    Some(kv) => if rest.contains_key(lower_of(kv.0)) {
                        rest
                    } else {
                        rest.insert(lower_of(kv.0), kv.1)
                    },
                    None => rest,
                }
            },
            None => match parse_line(s.subrange(cur, s.len() as int)) {
                Some(kv) => Map::empty().insert(lower_of(kv.0), kv.1),
                None => Map::empty(),
            },
        }
    }
}

#[via_fn]
proof fn text_defs_from_decreases(s: Seq<char>, cur: int) {
    crate::chars::lemma_find_char_bounds(s, cur, '\n');
}

/// Unescapes `v[from..to]` into a fresh string.
fn unescape_exec(v: &Vec<char>, from: usize, to: usize) -> (r: String)
    requires
        from <= to <= v@.len(),
    ensures
        r@ == unescape(v@.subrange(from as int, to as int), 0),
{
    let ghost l = v@.subrange(from as int, to as int);
    let mut r = String::new();
    let mut j = from;
    while j < to
        invariant
            from <= j <= to <= v@.len(),
            l == v@.subrange(from as int, to as int),
            unescape(l, 0) == r@ + unescape(l, j - from),
        decreases to - j,
    {
        let ghost old_r = r@;
        let ghost i = j - from;
        proof {
            assert(l[i] == v@[j as int]);
        }
        if v[j] == '=' && j + 1 < to && v[j + 1] == '=' {
            proof {
                assert(l[i + 1] == v@[j + 1]);
                assert(unescape(l, i) == seq!['='] + unescape(l, i + 2));
            }
            crate::chars::push_char(&mut r, '=');
            j = j + 2;
            proof {
                assert(old_r + (seq!['='] + unescape(l, j - from)) =~= r@ + unescape(l, j - from));
            }
        } else {
            proof {
                assert(unescape(l, i) == seq![l[i]] + unescape(l, i + 1));
            }
            crate::chars::push_char(&mut r, v[j]);
            j = j + 1;
            proof {
                assert(old_r + (seq![l[i]] + unescape(l, j - from)) =~= r@ + unescape(l, j - from));
            }
        }
    }
    proof {
        assert(unescape(l, to - from) == Seq::<char>::empty());
        assert(r@ + Seq::<char>::empty() =~= r@);
    }
    r
}

/// Parses the definitions line `v[ls..le]`, yielding its raw key and
/// value if the line has exactly one unescaped `=`.
fn parse_line_exec(v: &Vec<char>, ls: usize, le: usize) -> (r: Option<(String, String)>)
    requires
        ls <= le <= v@.len(),
    ensures
        (match parse_line(v@.subrange(ls as int, le as int)) {
            Some(kv) => r matches Some(p) && p.0@ == kv.0 && p.1@ == kv.1,
            None => r is None,
        }),
{
    let ghost l = v@.subrange(ls as int, le as int);
    let mut j = ls;
    let mut count: usize = 0;
    let mut first: usize = 0;
    while j < le
        invariant
            ls <= j <= le <= v@.len(),
            l == v@.subrange(ls as int, le as int),
            count <= j,
            count == 0 ==> seps(l, 0) == seps(l, j - ls),
            count == 1 ==> ls <= first < le && seps(l, 0) == seq![first - ls] + seps(l, j - ls),
            count >= 2 ==> seps(l, 0).len() >= 2,
        decreases le - j,
    {
        let ghost i = j - ls;
        proof {
            assert(l[i] == v@[j as int]);
        }
        if v[j] == '=' {
            if j + 1 < le && v[j + 1] == '=' {
                proof {
                    assert(l[i + 1] == v@[j + 1]);
                    assert(seps(l, i) == seps(l, i + 2));
                }
                j = j + 2;
            } else {
                proof {
                    assert(seps(l, i) == seq![i] + seps(l, i + 1));
                    if count == 1 {
                        assert(seq![first - ls] + (seq![i] + seps(l, i + 1)) =~= seq![
                            first - ls,
                            i,
                        ] + seps(l, i + 1));
                    }
                }
                if count == 0 {
                    first = j;
                }
                count = count + 1;
                j = j + 1;
            }
        } else {
            proof {
                assert(seps(l, i) == seps(l, i + 1));
            }
            j = j + 1;
        }
    }
    proof {
        assert(seps(l, le - ls) == Seq::<int>::empty());
        if count == 1 {
            assert(seq![first - ls] + Seq::<int>::empty() =~= seq![first - ls]);
        }
    }
    if count == 1 {
        let p = first - ls;
        proof {
            assert(seps(l, 0)[0] == p);
            assert(v@.subrange(ls as int, first as int) =~= l.subrange(0, p as int));
            assert(v@.subrange(first + 1, le as int) =~= l.subrange(p + 1, l.len() as int));
        }
        let key = unescape_exec(v, ls, first);
        let value = unescape_exec(v, first + 1, le);
        Some((key, value))
    } else {
        None
    }
}

/// Builds a definitions mapping from flat `key=value` text: each line
/// with exactly one unescaped `=` binds its (canonicalized, unescaped)
/// key to its unescaped value, later lines overwriting earlier ones;
/// every other line is skipped.
pub fn from_text(content: &str) -> (d: Defs)
    ensures
        d@ == text_defs_from(content@, 0),
{
    let cv = str_to_chars(content);
    let n = cv.len();
    let mut d = Defs::new();
    let mut cur: usize = 0;
    proof {
        assert(text_defs_from(content@, 0) =~= d@.union_prefer_right(
            text_defs_from(content@, 0),
        ));
    }
    loop
        invariant
            cv@ == content@,
            n == content@.len(),
            cur <= n,
            text_defs_from(content@, 0) == d@.union_prefer_right(
                text_defs_from(content@, cur as int),
            ),
        decreases n - cur,
    {
        let ghost old_d = d@;
        match find_char_exec(&cv, cur, '\n') {
            Some(e) => {
                match parse_line_exec(&cv, cur, e) {
                    Some(kv) => {
                        let ghost key_spec = kv.0@;
                        let ghost val_spec = kv.1@;
                        d.insert(kv.0.as_str(), kv.1);
                        proof {
                            let rest = text_defs_from(content@, e + 1);
                            let fk = lower_of(key_spec);
                            if rest.contains_key(fk) {
                                assert(old_d.union_prefer_right(rest) =~= d@.union_prefer_right(
                                    rest,
                                ));
                            } else {
                                assert(old_d.union_prefer_right(rest.insert(fk, val_spec))
                                    =~= d@.union_prefer_right(rest));
                            }
                        }
                    },
                    None => {},
                }
                cur = e + 1;
            },
            None => {
                match parse_line_exec(&cv, cur, n) {
                    Some(kv) => {
                        let ghost key_spec = kv.0@;
                        let ghost val_spec = kv.1@;
                        d.insert(kv.0.as_str(), kv.1);
                        proof {
                            let fk = lower_of(key_spec);
                            assert(cur < n) by {
                                if cur >= n {
                                    assert(content@.subrange(cur as int, n as int)
                                        =~= Seq::<char>::empty());
                                    assert(seps(Seq::<char>::empty(), 0) == Seq::<int>::empty());
                                }
                            }
                            assert(old_d.union_prefer_right(
                                Map::<Seq<char>, Seq<char>>::empty().insert(fk, val_spec),
                            ) =~= d@.union_prefer_right(Map::<Seq<char>, Seq<char>>::empty()));
                            assert(d@.union_prefer_right(Map::<Seq<char>, Seq<char>>::empty())
                                =~= d@);
                        }
                    },
                    None => {
                        proof {
                            assert(old_d.union_prefer_right(Map::<Seq<char>, Seq<char>>::empty())
                                =~= old_d);
                        }
                    },
                }
                return d;
            },
        }
    }
}

} // verus!
