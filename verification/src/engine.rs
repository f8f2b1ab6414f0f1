//! The interpolation engine: a single left-to-right scan over the input
//! that locates `${key}` placeholders, resolves each key in the
//! definitions mapping, splices in the resolved value, and resumes
//! scanning immediately after the spliced text, so that substituted text
//! is never rescanned and substitution is non-recursive.

use crate::chars::find_char;
use crate::chars::find_char_exec;
use crate::chars::lemma_find_char;
use crate::chars::lemma_find_char_at;
use crate::chars::lemma_find_char_bounds;
use crate::chars::newline_count;
use crate::chars::newline_count_exec;
use crate::chars::str_to_chars;
use crate::defs::spec_lookup;
use crate::defs::Defs;
use vstd::prelude::*;
use vstd::string::StrSliceExecFns;
use vstd::string::StringExecFns;

verus! {

/// Whether an opening guard `${` starts at index `i` of `s`.
pub open spec fn is_open_at(s: Seq<char>, i: int) -> bool {
    0 <= i && i + 1 < s.len() && s[i] == '$' && s[i + 1] == '{'
}

/// Index of the first opening guard at or after `from`, or `None`.
pub open spec fn find_open(s: Seq<char>, from: int) -> Option<int>
    decreases s.len() - from,
{
    if from + 1 >= s.len() {
        None
    } else if s[from] == '$' && s[from + 1] == '{' {
        Some(from)
    } else {
        find_open(s, from + 1)
    }
}

/// Bounds of a successful `find_open`, with no demand on `from`.
pub proof fn lemma_find_open_bounds(s: Seq<char>, from: int)
    ensures
        (match find_open(s, from) {
            Some(o) => from <= o && o + 1 < s.len(),
            None => true,
        }),
    decreases s.len() - from,
{
    if from + 1 >= s.len() {
    } else if s[from] == '$' && s[from + 1] == '{' {
    } else {
        lemma_find_open_bounds(s, from + 1);
    }
}

/// What `find_open` returns: the least opening-guard position at or
/// after `from`, if there is one.
pub proof fn lemma_find_open(s: Seq<char>, from: int)
    requires
        0 <= from,
    ensures
        (match find_open(s, from) {
            Some(o) => from <= o && is_open_at(s, o) && (forall|j: int|
                from <= j < o ==> !is_open_at(s, j)),
            None => forall|j: int| from <= j ==> !is_open_at(s, j),
        }),
    decreases s.len() - from,
{
    if from + 1 >= s.len() {
    } else if s[from] == '$' && s[from + 1] == '{' {
    } else {
        lemma_find_open(s, from + 1);
    }
}

/// Executable search for the next opening guard.
pub fn find_open_exec(v: &Vec<char>, from: usize) -> (r: Option<usize>)
    requires
        from <= v@.len(),
    ensures
        (match r {
            Some(o) => Some(o as int) == find_open(v@, from as int) && from <= o && o + 1
                < v@.len(),
            None => find_open(v@, from as int) is None,
        }),
{
    let n = v.len();
    if n == 0 {
        return None;
    }
    let mut i = from;
    while i < n - 1
        invariant
            from <= i,
            n == v@.len(),
            1 <= n,
            find_open(v@, from as int) == find_open(v@, i as int),
        decreases n - i,
    {
        if v[i] == '$' && v[i + 1] == '{' {
            return Some(i);
        }
        i = i + 1;
    }
    None
}

/// The outcome of resolving one discovered placeholder, at the
/// specification level.
pub ghost enum SpecOutcome {
    Found { key: Seq<char>, value: Seq<char> },
    NotFound { key: Seq<char> },
}

/// The outcome of resolving one discovered placeholder: the key, and the
/// resolved value if the mapping had one.
#[derive(Debug)]
pub enum Outcome {
    Found { key: String, value: String },
    NotFound { key: String },
}

impl View for Outcome {
    type V = SpecOutcome;

    open spec fn view(&self) -> SpecOutcome {
        match self {
            Outcome::Found { key, value } => SpecOutcome::Found { key: key@, value: value@ },
            Outcome::NotFound { key } => SpecOutcome::NotFound { key: key@ },
        }
    }
}

/// A fatal interpolation failure, at the specification level.
pub ghost enum SpecError {
    MismatchedGuard { line: nat },
    ResolutionError { key: Seq<char> },
}

/// A fatal interpolation failure: an opening guard with no closing `}`
/// in the rest of the input (with the 0-based line number of the last
/// settled scan position), or — in strict mode — a key with no entry in
/// the definitions mapping.
#[derive(Debug)]
pub enum InterpError {
    MismatchedGuard { line: usize },
    ResolutionError { key: String },
}

impl View for InterpError {
    type V = SpecError;

    open spec fn view(&self) -> SpecError {
        match self {
            InterpError::MismatchedGuard { line } => SpecError::MismatchedGuard {
                line: *line as nat,
            },
            InterpError::ResolutionError { key } => SpecError::ResolutionError { key: key@ },
        }
    }
}

/// The result of interpolating `s` from offset `cur` on, against the
/// canonical-key mapping `m`: the text from `cur` to the end with every
/// placeholder handled, or the first fatal error.  Resolved values are
/// spliced in verbatim and never rescanned; an unresolved placeholder is
/// left unchanged unless `strict` is set.
pub open spec fn interp_result(
    s: Seq<char>,
    m: Map<Seq<char>, Seq<char>>,
    strict: bool,
    cur: int,
) -> Result<Seq<char>, SpecError>
    decreases s.len() - cur,
    via interp_result_decreases
{
    match find_open(s, cur) {
        None => Ok(s.subrange(cur, s.len() as int)),
        Some(o) => match find_char(s, o + 2, '}') {
            None => Err(SpecError::MismatchedGuard { line: newline_count(s.subrange(0, cur)) }),
            Some(c) => {
                let key = s.subrange(o + 2, c);
                match spec_lookup(m, key) {
                    Some(v) => match interp_result(s, m, strict, c + 1) {
                        Ok(rest) => Ok(s.subrange(cur, o) + v + rest),
                        Err(e) => Err(e),
                    },
                    None => if strict {
                        Err(SpecError::ResolutionError { key })
                    } else {
                        match interp_result(s, m, strict, c + 1) {
                            Ok(rest) => Ok(s.subrange(cur, c + 1) + rest),
                            Err(e) => Err(e),
                        }
                    },
                }
            },
        },
    }
}

#[via_fn]
proof fn interp_result_decreases(s: Seq<char>, m: Map<Seq<char>, Seq<char>>, strict: bool, cur: int) {
    lemma_find_open_bounds(s, cur);
    match find_open(s, cur) {
        Some(o) => {
            lemma_find_char_bounds(s, o + 2, '}');
        },
        None => {},
    }
}

/// The resolution outcomes emitted while interpolating `s` from `cur`
/// on: one per discovered placeholder, in scan order, ending early at a
/// fatal error.
pub open spec fn interp_outcomes(
    s: Seq<char>,
    m: Map<Seq<char>, Seq<char>>,
    strict: bool,
    cur: int,
) -> Seq<SpecOutcome>
    decreases s.len() - cur,
    via interp_outcomes_decreases
{
    match find_open(s, cur) {
        None => Seq::empty(),
        Some(o) => match find_char(s, o + 2, '}') {
            None => Seq::empty(),
            Some(c) => {
                let key = s.subrange(o + 2, c);
                match spec_lookup(m, key) {
                    Some(v) => seq![SpecOutcome::Found { key, value: v }] + interp_outcomes(
                        s,
                        m,
                        strict,
                        c + 1,
                    ),
                    None => if strict {
                        seq![SpecOutcome::NotFound { key }]
                    } else {
                        seq![SpecOutcome::NotFound { key }] + interp_outcomes(s, m, strict, c + 1)
                    },
                }
            },
        },
    }
}

#[via_fn]
proof fn interp_outcomes_decreases(
    s: Seq<char>,
    m: Map<Seq<char>, Seq<char>>,
    strict: bool,
    cur: int,
) {
    lemma_find_open_bounds(s, cur);
    match find_open(s, cur) {
        Some(o) => {
            lemma_find_char_bounds(s, o + 2, '}');
        },
        None => {},
    }
}

/// Whether the outcome vector `v` reports exactly the specification-level
/// outcomes `s`, element for element.
pub open spec fn outcomes_match(v: Seq<Outcome>, s: Seq<SpecOutcome>) -> bool {
    v.len() == s.len() && (forall|i: int| 0 <= i < v.len() ==> v[i]@ == s[i])
}

/// Interpolates `input` against `defs` in one left-to-right pass,
/// returning the fully materialized output or the first fatal error,
/// together with one resolution outcome per discovered placeholder.
pub fn interpolate(input: &str, defs: &Defs, strict: bool) -> (r: (
    Result<String, InterpError>,
    Vec<Outcome>,
))
    ensures
        (match interp_result(input@, defs@, strict, 0) {
            Ok(sout) => r.0 matches Ok(out) && out@ == sout,
            Err(e) => r.0 matches Err(err) && err@ == e,
        }),
        outcomes_match(r.1@, interp_outcomes(input@, defs@, strict, 0)),
{
    let cv = str_to_chars(input);
    let n = cv.len();
    let mut out = String::new();
    let mut outs: Vec<Outcome> = Vec::new();
    let mut cur: usize = 0;
    loop
        invariant
            cv@ == input@,
            n == input@.len(),
            cur <= n,
            (match interp_result(input@, defs@, strict, cur as int) {
                Ok(rest) => interp_result(input@, defs@, strict, 0) == Ok::<Seq<char>, SpecError>(
                    out@ + rest,
                ),
                Err(e) => interp_result(input@, defs@, strict, 0) == Err::<Seq<char>, SpecError>(e),
            }),
            interp_outcomes(input@, defs@, strict, 0) == outs@.map_values(|oc: Outcome| oc@)
                + interp_outcomes(input@, defs@, strict, cur as int),
        decreases n - cur,
    {
        match find_open_exec(&cv, cur) {
            None => {
                let tail = input.substring_char(cur, n);
                out.append(tail);
                proof {
                    assert(out@ =~= interp_result(input@, defs@, strict, 0)->Ok_0);
                    assert(outs@.map_values(|oc: Outcome| oc@) + Seq::<SpecOutcome>::empty()
                        =~= outs@.map_values(|oc: Outcome| oc@));
                }
                return (Ok(out), outs);
            },
            Some(o) => {
                match find_char_exec(&cv, o + 2, '}') {
                    None => {
                        let line = newline_count_exec(&cv, cur);
                        proof {
                            assert(outs@.map_values(|oc: Outcome| oc@) + Seq::<
                                SpecOutcome,
                            >::empty() =~= outs@.map_values(|oc: Outcome| oc@));
                        }
                        return (Err(InterpError::MismatchedGuard { line }), outs);
                    },
                    Some(c) => {
                        let ghost old_outs = outs@;
                        let ghost key_spec = input@.subrange(o + 2, c as int);
                        let key_s = input.substring_char(o + 2, c);
                        match defs.lookup(key_s) {
                            Some(v) => {
                                outs.push(Outcome::Found { key: key_s.to_owned(), value: v.clone() });
                                let ghost old_out = out@;
                                let pre = input.substring_char(cur, o);
                                out.append(pre);
                                out.append(v.as_str());
                                proof {
                                    assert(out@ =~= old_out + (input@.subrange(cur as int, o as int)
                                        + v@));
                                    if interp_result(input@, defs@, strict, c + 1) is Ok {
                                        let rest = interp_result(input@, defs@, strict, c + 1)->Ok_0;
                                        assert(old_out + (input@.subrange(cur as int, o as int) + v@
                                            + rest) =~= out@ + rest);
                                    }
                                    assert(outs@.map_values(|oc: Outcome| oc@) =~= old_outs.map_values(
                                        |oc: Outcome| oc@,
                                    ) + seq![SpecOutcome::Found { key: key_spec, value: v@ }]);
                                    assert(old_outs.map_values(|oc: Outcome| oc@) + (seq![
                                        SpecOutcome::Found { key: key_spec, value: v@ },
                                    ] + interp_outcomes(input@, defs@, strict, c + 1))
                                        =~= outs@.map_values(|oc: Outcome| oc@) + interp_outcomes(
                                        input@,
                                        defs@,
                                        strict,
                                        c + 1,
                                    ));
                                }
                                cur = c + 1;
                            },
                            None => {
                                outs.push(Outcome::NotFound { key: key_s.to_owned() });
                                proof {
                                    assert(outs@.map_values(|oc: Outcome| oc@) =~= old_outs.map_values(
                                        |oc: Outcome| oc@,
                                    ) + seq![SpecOutcome::NotFound { key: key_spec }]);
                                }
                                if strict {
                                    return (
                                        Err(
                                            InterpError::ResolutionError {
                                                key: key_s.to_owned(),
                                            },
                                        ),
                                        outs,
                                    );
                                }
                                let ghost old_out = out@;
                                let pre = input.substring_char(cur, c + 1);
                                out.append(pre);
                                proof {
                                    if interp_result(input@, defs@, strict, c + 1) is Ok {
                                        let rest = interp_result(input@, defs@, strict, c + 1)->Ok_0;
                                        assert(old_out + (input@.subrange(cur as int, c + 1) + rest)
                                            =~= out@ + rest);
                                    }
                                    assert(old_outs.map_values(|oc: Outcome| oc@) + (seq![
                                        SpecOutcome::NotFound { key: key_spec },
                                    ] + interp_outcomes(input@, defs@, strict, c + 1))
                                        =~= outs@.map_values(|oc: Outcome| oc@) + interp_outcomes(
                                        input@,
                                        defs@,
                                        strict,
                                        c + 1,
                                    ));
                                }
                                cur = c + 1;
                            },
                        }
                    },
                }
            },
        }
    }
}

/// If an opening guard stands at `at` and nowhere earlier in `[from, at)`,
/// then `find_open` finds exactly `at`.
pub proof fn lemma_find_open_at(s: Seq<char>, from: int, at: int)
    requires
        0 <= from <= at,
        is_open_at(s, at),
        forall|j: int| from <= j < at ==> !is_open_at(s, j),
    ensures
        find_open(s, from) == Some(at),
    decreases at - from,
{
    if from == at {
    } else {
        assert(!is_open_at(s, from));
        assert(from + 1 < s.len());
        lemma_find_open_at(s, from + 1, at);
    }
}

/// Shape of an input holding one well-formed placeholder `${k}` between a
/// guard-free prefix `a` and an arbitrary suffix `b`: where the scan finds
/// the guards and what key it extracts.
pub proof fn lemma_single_placeholder_shape(a: Seq<char>, k: Seq<char>, b: Seq<char>)
    requires
        forall|i: int| !is_open_at(a, i),
        forall|i: int| 0 <= i < k.len() ==> k[i] != '}',
    ensures
        ({
            let s = a + seq!['$', '{'] + k + seq!['}'] + b;
            let o = a.len() as int;
            let c = o + 2 + k.len();
            find_open(s, 0) == Some(o) && find_char(s, o + 2, '}') == Some(c) && s.subrange(
                o + 2,
                c,
            ) == k && s.subrange(0, o) == a && s.subrange(c + 1, s.len() as int) == b
        }),
{
    let s = a + seq!['$', '{'] + k + seq!['}'] + b;
    let o = a.len() as int;
    let c = o + 2 + k.len() as int;
    assert(s.len() == a.len() + 2 + k.len() + 1 + b.len());
    assert(s[o] == '$');
    assert(s[o + 1] == '{');
    assert(is_open_at(s, o));
    assert forall|j: int| 0 <= j < o implies !is_open_at(s, j) by {
        if j + 1 < o {
            assert(s[j] == a[j]);
            assert(s[j + 1] == a[j + 1]);
            assert(!is_open_at(a, j));
        } else {
            assert(s[j + 1] == '$');
        }
    }
    lemma_find_open_at(s, 0, o);
    assert(s[c] == '}');
    assert forall|j: int| o + 2 <= j < c implies s[j] != '}' by {
        assert(s[j] == k[j - (o + 2)]);
    }
    lemma_find_char_at(s, o + 2, c, '}');
    assert(s.subrange(o + 2, c) =~= k);
    assert(s.subrange(0, o) =~= a);
    assert(s.subrange(c + 1, s.len() as int) =~= b);
}

/// An input with no opening guard anywhere interpolates to itself, with
/// no resolution outcome emitted.
pub proof fn lemma_no_placeholder(s: Seq<char>, m: Map<Seq<char>, Seq<char>>, strict: bool)
    requires
        forall|i: int| !is_open_at(s, i),
    ensures
        interp_result(s, m, strict, 0) == Ok::<Seq<char>, SpecError>(s),
        interp_outcomes(s, m, strict, 0) == Seq::<SpecOutcome>::empty(),
{
    lemma_find_open(s, 0);
    assert(find_open(s, 0) is None);
    assert(s.subrange(0, s.len() as int) =~= s);
}

/// A well-formed placeholder whose key resolves: the `${k}` span is
/// replaced by exactly the resolved value, and all other text is kept
/// byte for byte.  The value is spliced in verbatim — it may itself
/// contain `${...}` without being rescanned (substitution is
/// non-recursive).
pub proof fn lemma_resolved_placeholder(
    a: Seq<char>,
    k: Seq<char>,
    v: Seq<char>,
    b: Seq<char>,
    m: Map<Seq<char>, Seq<char>>,
    strict: bool,
)
    requires
        forall|i: int| !is_open_at(a, i),
        forall|i: int| !is_open_at(b, i),
        forall|i: int| 0 <= i < k.len() ==> k[i] != '}',
        spec_lookup(m, k) == Some(v),
    ensures
        interp_result(a + seq!['$', '{'] + k + seq!['}'] + b, m, strict, 0) == Ok::<
            Seq<char>,
            SpecError,
        >(a + v + b),
        interp_outcomes(a + seq!['$', '{'] + k + seq!['}'] + b, m, strict, 0) == seq![
            SpecOutcome::Found { key: k, value: v },
        ],
{
    lemma_single_placeholder_shape(a, k, b);
    let s = a + seq!['$', '{'] + k + seq!['}'] + b;
    let o = a.len() as int;
    let c = o + 2 + k.len() as int;
    assert forall|j: int| c + 1 <= j implies !is_open_at(s, j) by {
        if j + 1 < s.len() {
            assert(s[j] == b[j - (c + 1)]);
            assert(s[j + 1] == b[j + 1 - (c + 1)]);
            assert(!is_open_at(b, j - (c + 1)));
        }
    }
    lemma_find_open(s, c + 1);
    assert(find_open(s, c + 1) is None);
    assert(interp_result(s, m, strict, c + 1) == Ok::<Seq<char>, SpecError>(
        s.subrange(c + 1, s.len() as int),
    ));
    assert(interp_outcomes(s, m, strict, c + 1) == Seq::<SpecOutcome>::empty());
    assert(s.subrange(0, o) + v + s.subrange(c + 1, s.len() as int) =~= a + v + b);
    assert(seq![SpecOutcome::Found { key: k, value: v }] + Seq::<SpecOutcome>::empty() =~= seq![
        SpecOutcome::Found { key: k, value: v },
    ]);
}

/// An unresolved placeholder in non-strict mode passes through
/// unchanged: the output equals the input, with one `NotFound` outcome.
pub proof fn lemma_unresolved_nonstrict(
    a: Seq<char>,
    k: Seq<char>,
    b: Seq<char>,
    m: Map<Seq<char>, Seq<char>>,
)
    requires
        forall|i: int| !is_open_at(a, i),
        forall|i: int| !is_open_at(b, i),
        forall|i: int| 0 <= i < k.len() ==> k[i] != '}',
        spec_lookup(m, k) is None,
    ensures
        interp_result(a + seq!['$', '{'] + k + seq!['}'] + b, m, false, 0) == Ok::<
            Seq<char>,
            SpecError,
        >(a + seq!['$', '{'] + k + seq!['}'] + b),
        interp_outcomes(a + seq!['$', '{'] + k + seq!['}'] + b, m, false, 0) == seq![
            SpecOutcome::NotFound { key: k },
        ],
{
    lemma_single_placeholder_shape(a, k, b);
    let s = a + seq!['$', '{'] + k + seq!['}'] + b;
    let o = a.len() as int;
    let c = o + 2 + k.len() as int;
    assert forall|j: int| c + 1 <= j implies !is_open_at(s, j) by {
        if j + 1 < s.len() {
            assert(s[j] == b[j - (c + 1)]);
            assert(s[j + 1] == b[j + 1 - (c + 1)]);
            assert(!is_open_at(b, j - (c + 1)));
        }
    }
    lemma_find_open(s, c + 1);
    assert(find_open(s, c + 1) is None);
    assert(interp_result(s, m, false, c + 1) == Ok::<Seq<char>, SpecError>(
        s.subrange(c + 1, s.len() as int),
    ));
    assert(interp_outcomes(s, m, false, c + 1) == Seq::<SpecOutcome>::empty());
    assert(s.subrange(0, c + 1) + s.subrange(c + 1, s.len() as int) =~= s);
    assert(seq![SpecOutcome::NotFound { key: k }] + Seq::<SpecOutcome>::empty() =~= seq![
        SpecOutcome::NotFound { key: k },
    ]);
}

/// An unresolved placeholder in strict mode aborts the whole
/// interpolation with a resolution error naming the key, whatever
/// follows the placeholder.
pub proof fn lemma_unresolved_strict(
    a: Seq<char>,
    k: Seq<char>,
    b: Seq<char>,
    m: Map<Seq<char>, Seq<char>>,
)
    requires
        forall|i: int| !is_open_at(a, i),
        forall|i: int| 0 <= i < k.len() ==> k[i] != '}',
        spec_lookup(m, k) is None,
    ensures
        interp_result(a + seq!['$', '{'] + k + seq!['}'] + b, m, true, 0) == Err::<
            Seq<char>,
            SpecError,
        >(SpecError::ResolutionError { key: k }),
        interp_outcomes(a + seq!['$', '{'] + k + seq!['}'] + b, m, true, 0) == seq![
            SpecOutcome::NotFound { key: k },
        ],
{
    lemma_single_placeholder_shape(a, k, b);
}

/// An opening guard with no closing `}` anywhere after it is a
/// mismatched-guard error; when it is the first placeholder of the
/// input, the last settled scan position is offset 0, so the reported
/// line number is 0.
pub proof fn lemma_mismatched_guard(
    a: Seq<char>,
    t: Seq<char>,
    m: Map<Seq<char>, Seq<char>>,
    strict: bool,
)
    requires
        forall|i: int| !is_open_at(a, i),
        forall|i: int| 0 <= i < t.len() ==> t[i] != '}',
    ensures
        interp_result(a + seq!['$', '{'] + t, m, strict, 0) == Err::<Seq<char>, SpecError>(
            SpecError::MismatchedGuard { line: 0 },
        ),
        interp_outcomes(a + seq!['$', '{'] + t, m, strict, 0) == Seq::<SpecOutcome>::empty(),
{
    let s = a + seq!['$', '{'] + t;
    let o = a.len() as int;
    assert(s.len() == a.len() + 2 + t.len());
    assert(s[o] == '$');
    assert(s[o + 1] == '{');
    assert(is_open_at(s, o));
    assert forall|j: int| 0 <= j < o implies !is_open_at(s, j) by {
        if j + 1 < o {
            assert(s[j] == a[j]);
            assert(s[j + 1] == a[j + 1]);
            assert(!is_open_at(a, j));
        } else {
            assert(s[j + 1] == '$');
        }
    }
    lemma_find_open_at(s, 0, o);
    assert forall|j: int| o + 2 <= j < s.len() implies s[j] != '}' by {
        assert(s[j] == t[j - (o + 2)]);
    }
    lemma_find_char(s, o + 2, '}');
    assert(find_char(s, o + 2, '}') is None);
    assert(s.subrange(0, 0) =~= Seq::<char>::empty());
    assert(newline_count(Seq::<char>::empty()) == 0);
}

} // verus!
