//! The JSON definitions loader: a single JSON object whose members are
//! strings or nested objects.  Nested objects are flattened into
//! dotted-path keys (`{"ocean":{"creature":"whale"}}` binds
//! `ocean.creature`), and keys are canonicalized like every other
//! definitions source.  Policy choices, surfaced as a rejected document:
//! non-string leaf values (numbers, booleans, `null`, arrays) and
//! `\uXXXX` string escapes are not supported.
//!
//! The parsers carry an explicit recursion budget.  Every parsing step
//! consumes at least one character, so a budget of one more than the
//! document length never runs out before the end of the input.

use crate::chars::str_to_chars;
use crate::defs::lower_of;
use crate::defs::Defs;
use vstd::prelude::*;
use vstd::string::StringExecFns;

verus! {

/// Whether `c` is JSON whitespace.
pub open spec fn is_ws(c: char) -> bool {
    c == ' ' || c == '\t' || c == '\n' || c == '\r'
}

/// The first index at or after `i` holding a non-whitespace character
/// (or the end of the input).
pub open spec fn skip_ws(s: Seq<char>, i: int) -> int
    decreases s.len() - i,
{
    if 0 <= i < s.len() && is_ws(s[i]) {
        skip_ws(s, i + 1)
    } else {
        i
    }
}

/// Executable whitespace skipping.
pub fn skip_ws_exec(v: &Vec<char>, i: usize) -> (r: usize)
    requires
        i <= v@.len(),
    ensures
        r == skip_ws(v@, i as int),
        i <= r <= v@.len(),
{
    let n = v.len();
    let mut j = i;
    while j < n && (v[j] == ' ' || v[j] == '\t' || v[j] == '\n' || v[j] == '\r')
        invariant
            i <= j <= n,
            n == v@.len(),
            skip_ws(v@, i as int) == skip_ws(v@, j as int),
        decreases n - j,
    {
        j = j + 1;
    }
    j
}

/// The character a backslash escape stands for, or nothing if the
/// escape is unsupported (among them `\uXXXX`).
pub open spec fn unesc_char(c: char) -> Option<char> {
    if c == '"' {
        Some('"')
    } else if c == '\\' {
        Some('\\')
    } else if c == '/' {
        Some('/')
    } else if c == 'n' {
        Some('\n')
    } else if c == 't' {
        Some('\t')
    } else if c == 'r' {
        Some('\r')
    } else if c == 'b' {
        Some('\u{0008}')
    } else if c == 'f' {
        Some('\u{000C}')
    } else {
        None
    }
}

/// The body of a JSON string from `i` (just past the opening quote):
/// its unescaped characters and the index just past the closing quote.
pub open spec fn jstring_body(s: Seq<char>, i: int) -> Option<(Seq<char>, int)>
    decreases s.len() - i,
{
    if i < 0 || i >= s.len() {
        None
    } else if s[i] == '"' {
        Some((Seq::empty(), i + 1))
    } else if s[i] == '\\' {
        if i + 1 < s.len() {
            match unesc_char(s[i + 1]) {
                Some(c) => match jstring_body(s, i + 2) {
                    Some(r) => Some((seq![c] + r.0, r.1)),
                    None => None,
                },
                None => None,
            }
        } else {
            None
        }
    } else {
        match jstring_body(s, i + 1) {
            Some(r) => Some((seq![s[i]] + r.0, r.1)),
            None => None,
        }
    }
}

/// A JSON string starting at `i`: its content and the index just past
/// its closing quote.
pub open spec fn parse_jstring(s: Seq<char>, i: int) -> Option<(Seq<char>, int)> {
    if 0 <= i < s.len() && s[i] == '"' {
        jstring_body(s, i + 1)
    } else {
        None
    }
}

/// A parsed string ends after where it starts, within the input.
pub proof fn lemma_jstring_body_adv(s: Seq<char>, i: int)
    ensures
        (match jstring_body(s, i) {
            Some(r) => i + 1 <= r.1 <= s.len(),
            None => true,
        }),
    decreases s.len() - i,
{
    if i < 0 || i >= s.len() {
    } else if s[i] == '"' {
    } else if s[i] == '\\' {
        if i + 1 < s.len() {
            lemma_jstring_body_adv(s, i + 2);
        }
    } else {
        lemma_jstring_body_adv(s, i + 1);
    }
}

/// An object starting at `i` (at its `{`), flattened under the dotted
/// `prefix` into `acc`: the extended mapping and the index just past the
/// closing `}`.  `fuel` is the recursion budget.
pub open spec fn parse_object(
    s: Seq<char>,
    i: int,
    prefix: Seq<char>,
    acc: Map<Seq<char>, Seq<char>>,
    fuel: nat,
) -> Option<(Map<Seq<char>, Seq<char>>, int)>
    decreases fuel,
{
    if fuel == 0 {
        None
    } else if i < 0 || i >= s.len() || s[i] != '{' {
        None
    } else {
        let j = skip_ws(s, i + 1);
        if j < s.len() && s[j] == '}' {
            Some((acc, j + 1))
        } else {
            parse_members(s, j, prefix, acc, (fuel - 1) as nat)
        }
    }
}

/// One or more `"key": value` members from `i` (at the first key's
/// quote) to the object's closing `}`, flattened under `prefix` into
/// `acc`.  A member value must be a string or a nested object; anything
/// else rejects the document.  A later member overwrites an earlier
/// binding of the same canonical key.
pub open spec fn parse_members(
    s: Seq<char>,
    i: int,
    prefix: Seq<char>,
    acc: Map<Seq<char>, Seq<char>>,
    fuel: nat,
) -> Option<(Map<Seq<char>, Seq<char>>, int)>
    decreases fuel,
{
    if fuel == 0 {
        None
    } else {
        match parse_jstring(s, i) {
            None => None,
            Some(kj) => {
                let j2 = skip_ws(s, kj.1);
                if j2 >= s.len() || s[j2] != ':' {
                    None
                } else {
                    let j3 = skip_ws(s, j2 + 1);
                    if j3 < s.len() && s[j3] == '"' {
                        match parse_jstring(s, j3) {
                            None => None,
                            Some(vj) => parse_tail(
                                s,
                                vj.1,
                                prefix,
                                acc.insert(lower_of(prefix + kj.0), vj.0),
                                (fuel - 1) as nat,
                            ),
                        }
                    } else if j3 < s.len() && s[j3] == '{' {
                        match parse_object(s, j3, prefix + kj.0 + seq!['.'], acc, (fuel - 1) as nat) {
                            None => None,
                            Some(mj) => parse_tail(s, mj.1, prefix, mj.0, (fuel - 1) as nat),
                        }
                    } else {
                        None
                    }
                }
            },
        }
    }
}

/// After a member's value: either the object's closing `}`, or a comma
/// and further members.
pub open spec fn parse_tail(
    s: Seq<char>,
    i: int,
    prefix: Seq<char>,
    acc: Map<Seq<char>, Seq<char>>,
    fuel: nat,
) -> Option<(Map<Seq<char>, Seq<char>>, int)>
    decreases fuel,
{
    if fuel == 0 {
        None
    } else {
        let j = skip_ws(s, i);
        if j < s.len() && s[j] == '}' {
            Some((acc, j + 1))
        } else if j < s.len() && s[j] == ',' {
            parse_members(s, skip_ws(s, j + 1), prefix, acc, (fuel - 1) as nat)
        } else {
            None
        }
    }
}

/// The flattened mapping described by the JSON document `s`: a single
/// object, possibly surrounded by whitespace, or nothing if the document
/// is rejected.
pub open spec fn json_defs(s: Seq<char>) -> Option<Map<Seq<char>, Seq<char>>> {
    match parse_object(s, skip_ws(s, 0), Seq::empty(), Map::empty(), (s.len() + 1) as nat) {
        Some(mj) => {
            if skip_ws(s, mj.1) == s.len() {
                Some(mj.0)
            } else {
                None
            }
        },
        None => None,
    }
}

/// Executable escape resolution.
fn unesc_char_exec(c: char) -> (r: Option<char>)
    ensures
        r == unesc_char(c),
{
    if c == '"' {
        Some('"')
    } else if c == '\\' {
        Some('\\')
    } else if c == '/' {
        Some('/')
    } else if c == 'n' {
        Some('\n')
    } else if c == 't' {
        Some('\t')
    } else if c == 'r' {
        Some('\r')
    } else if c == 'b' {
        Some('\u{0008}')
    } else if c == 'f' {
        Some('\u{000C}')
    } else {
        None
    }
}

/// Executable JSON string parsing: the unescaped content and the index
/// just past the closing quote.
fn parse_jstring_exec(v: &Vec<char>, i: usize) -> (r: Option<(String, usize)>)
    requires
        i <= v@.len(),
    ensures
        (match parse_jstring(v@, i as int) {
            Some(cj) => r matches Some(p) && p.0@ == cj.0 && p.1 == cj.1 && i + 2 <= p.1
                <= v@.len(),
            None => r is None,
        }),
{
    let n = v.len();
    if i >= n || v[i] != '"' {
        return None;
    }
    let mut out = String::new();
    let mut j = i + 1;
    while j < n
        invariant
            i + 1 <= j <= n,
            n == v@.len(),
            v@[i as int] == '"',
            (match jstring_body(v@, j as int) {
                Some(rr) => jstring_body(v@, i + 1) matches Some(whole) && whole.0 == out@ + rr.0
                    && whole.1 == rr.1,
                None => jstring_body(v@, i + 1) is None,
            }),
        decreases n - j,
    {
        let ghost old_out = out@;
        if v[j] == '"' {
            proof {
                assert(jstring_body(v@, j as int) == Some((Seq::<char>::empty(), j + 1)));
                assert(out@ + Seq::<char>::empty() =~= out@);
                lemma_jstring_body_adv(v@, i + 1);
            }
            return Some((out, j + 1));
        } else if v[j] == '\\' {
            if j + 1 < n {
                match unesc_char_exec(v[j + 1]) {
                    Some(c) => {
                        crate::chars::push_char(&mut out, c);
                        proof {
                            if jstring_body(v@, j + 2) is Some {
                                let rr = jstring_body(v@, j + 2)->Some_0;
                                assert(old_out + (seq![c] + rr.0) =~= out@ + rr.0);
                            }
                        }
                        j = j + 2;
                    },
                    None => {
                        return None;
                    },
                }
            } else {
                return None;
            }
        } else {
            let c = v[j];
            crate::chars::push_char(&mut out, c);
            proof {
                if jstring_body(v@, j + 1) is Some {
                    let rr = jstring_body(v@, j + 1)->Some_0;
                    assert(old_out + (seq![c] + rr.0) =~= out@ + rr.0);
                }
            }
            j = j + 1;
        }
    }
    None
}

/// Executable object parsing: fills `d` with the flattened members and
/// returns the index just past the closing `}`.
fn parse_object_exec(v: &Vec<char>, i: usize, prefix: &String, d: &mut Defs, fuel: u128) -> (r:
    Option<usize>)
    requires
        i <= v@.len(),
    ensures
        (match parse_object(v@, i as int, prefix@, old(d)@, fuel as nat) {
            Some(mj) => r matches Some(j) && j == mj.1 && final(d)@ == mj.0 && j <= v@.len(),
            None => r is None,
        }),
    decreases fuel,
{
    if fuel == 0 {
        return None;
    }
    let n = v.len();
    if i >= n || v[i] != '{' {
        return None;
    }
    let j = skip_ws_exec(v, i + 1);
    if j < n && v[j] == '}' {
        Some(j + 1)
    } else {
        parse_members_exec(v, j, prefix, d, fuel - 1)
    }
}

/// Executable member-list parsing.
fn parse_members_exec(v: &Vec<char>, i: usize, prefix: &String, d: &mut Defs, fuel: u128) -> (r:
    Option<usize>)
    requires
        i <= v@.len(),
    ensures
        (match parse_members(v@, i as int, prefix@, old(d)@, fuel as nat) {
            Some(mj) => r matches Some(j) && j == mj.1 && final(d)@ == mj.0 && j <= v@.len(),
            None => r is None,
        }),
    decreases fuel,
{
    if fuel == 0 {
        return None;
    }
    let n = v.len();
    let kj = match parse_jstring_exec(v, i) {
        Some(kj) => kj,
        None => {
            return None;
        },
    };
    let j2 = skip_ws_exec(v, kj.1);
    if j2 >= n || v[j2] != ':' {
        return None;
    }
    let j3 = skip_ws_exec(v, j2 + 1);
    if j3 < n && v[j3] == '"' {
        let vj = match parse_jstring_exec(v, j3) {
            Some(vj) => vj,
            None => {
                return None;
            },
        };
        let mut path = prefix.clone();
        path.append(kj.0.as_str());
        d.insert(path.as_str(), vj.0);
        parse_tail_exec(v, vj.1, prefix, d, fuel - 1)
    } else if j3 < n && v[j3] == '{' {
        let mut sub_prefix = prefix.clone();
        sub_prefix.append(kj.0.as_str());
        sub_prefix.append(".");
        proof {
            reveal_strlit(".");
            assert(sub_prefix@ =~= prefix@ + kj.0@ + seq!['.']);
        }
        match parse_object_exec(v, j3, &sub_prefix, d, fuel - 1) {
            Some(j4) => parse_tail_exec(v, j4, prefix, d, fuel - 1),
            None => None,
        }
    } else {
        None
    }
}

/// Executable parsing of what follows a member's value.
fn parse_tail_exec(v: &Vec<char>, i: usize, prefix: &String, d: &mut Defs, fuel: u128) -> (r:
    Option<usize>)
    requires
        i <= v@.len(),
    ensures
        (match parse_tail(v@, i as int, prefix@, old(d)@, fuel as nat) {
            Some(mj) => r matches Some(j) && j == mj.1 && final(d)@ == mj.0 && j <= v@.len(),
            None => r is None,
        }),
    decreases fuel,
{
    if fuel == 0 {
        return None;
    }
    let n = v.len();
    let j = skip_ws_exec(v, i);
    if j < n && v[j] == '}' {
        Some(j + 1)
    } else if j < n && v[j] == ',' {
        let j2 = skip_ws_exec(v, j + 1);
        parse_members_exec(v, j2, prefix, d, fuel - 1)
    } else {
        None
    }
}

/// Builds a definitions mapping from a JSON document: a single object,
/// with nested objects flattened into dotted-path keys and every key
/// canonicalized.  A rejected document (malformed JSON, a non-string
/// leaf, an unsupported escape, trailing text) yields nothing.
pub fn from_json(content: &str) -> (r: Option<Defs>)
    ensures
        (match json_defs(content@) {
            Some(m) => r matches Some(d) && d@ == m,
            None => r is None,
        }),
{
    let cv = str_to_chars(content);
    let n = cv.len();
    let mut d = Defs::new();
    let empty_prefix = String::new();
    let i = skip_ws_exec(&cv, 0);
    let fuel: u128 = (n as u128) + 1;
    match parse_object_exec(&cv, i, &empty_prefix, &mut d, fuel) {
        Some(j) => {
            let j2 = skip_ws_exec(&cv, j);
            if j2 == n {
                Some(d)
            } else {
                None
            }
        },
        None => None,
    }
}

} // verus!
