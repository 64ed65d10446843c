use vstd::prelude::*;
use crate::types::Exec;

verus! {

/// A Unicode `White_Space` character, the separator of exec lines.
pub open spec fn is_white(c: char) -> bool {
    let u = c as u32;
    (0x09 <= u && u <= 0x0D) || u == 0x20 || u == 0x85 || u == 0xA0 || u == 0x1680 || (0x2000
        <= u && u <= 0x200A) || u == 0x2028 || u == 0x2029 || u == 0x202F || u == 0x205F || u
        == 0x3000
}

/// Whether `c` separates words of an exec line.
pub fn white(c: char) -> (r: bool)
    ensures
        r == is_white(c),
{
    let u = c as u32;
    (0x09 <= u && u <= 0x0D) || u == 0x20 || u == 0x85 || u == 0xA0 || u == 0x1680 || (0x2000
        <= u && u <= 0x200A) || u == 0x2028 || u == 0x2029 || u == 0x202F || u == 0x205F || u
        == 0x3000
}

/// The words of `s` after the partial word `cur`: maximal runs of
/// characters that are not white space.
pub open spec fn split_words(s: Seq<char>, cur: Seq<char>) -> Seq<Seq<char>>
    decreases s.len(),
{
    if s.len() == 0 {
        if cur.len() > 0 {
            seq![cur]
        } else {
            seq![]
        }
    } else if is_white(s[0]) {
        (if cur.len() > 0 {
            seq![cur]
        } else {
            seq![]
        }) + split_words(s.drop_first(), seq![])
    } else {
        split_words(s.drop_first(), cur.push(s[0]))
    }
}

/// The whitespace-separated words of `s`.
pub open spec fn words(s: Seq<char>) -> Seq<Seq<char>> {
    split_words(s, seq![])
}

/// The place of the first `=` in `s` at or after `i`; the length if none.
pub open spec fn first_eq_from(s: Seq<char>, i: int) -> int
    decreases s.len() - i,
{
    if i < 0 || i >= s.len() {
        s.len() as int
    } else if s[i] == '=' {
        i
    } else {
        first_eq_from(s, i + 1)
    }
}

pub open spec fn first_eq(s: Seq<char>) -> int {
    first_eq_from(s, 0)
}

pub open spec fn has_eq(s: Seq<char>) -> bool {
    first_eq(s) < s.len()
}

/// The number of leading words, from place `i` on, that hold a `=`.
pub open spec fn env_end_from(t: Seq<Seq<char>>, i: int) -> int
    decreases t.len() - i,
{
    if i < 0 || i >= t.len() || !has_eq(t[i]) {
        i
    } else {
        env_end_from(t, i + 1)
    }
}

/// The number of environment assignments that open the word list.
pub open spec fn env_end(t: Seq<Seq<char>>) -> int {
    env_end_from(t, 0)
}

/// An assignment word split at its first `=`.
pub open spec fn assignment(w: Seq<char>) -> (Seq<char>, Seq<char>) {
    (w.subrange(0, first_eq(w)), w.subrange(first_eq(w) + 1, w.len() as int))
}

/// Why an exec line names no command.
#[derive(Clone, Copy, Debug, PartialEq, Eq, Structural)]
pub enum ExecError {
    /// The line holds no word.
    Empty,
    /// The line holds only environment assignments.
    MissingProgram,
}

/// An exec line in its parts: environment, program, arguments.
pub open spec fn parse_exec(s: Seq<char>) -> Result<
    (Seq<(Seq<char>, Seq<char>)>, Seq<char>, Seq<Seq<char>>),
    ExecError,
> {
    let t = words(s);
    let e = env_end(t);
    if t.len() == 0 {
        Err(ExecError::Empty)
    } else if e >= t.len() {
        Err(ExecError::MissingProgram)
    } else {
        Ok(
            (
                t.subrange(0, e).map_values(|w: Seq<char>| assignment(w)),
                t[e],
                t.subrange(e + 1, t.len() as int),
            ),
        )
    }
}

/// What a child is spawned with.
#[derive(Clone, Debug)]
pub struct ParsedExec {
    pub env: Vec<(String, String)>,
    pub program: String,
    pub args: Vec<String>,
}

pub open spec fn strings(v: Seq<String>) -> Seq<Seq<char>> {
    v.map_values(|x: String| x@)
}

pub open spec fn string_pairs(v: Seq<(String, String)>) -> Seq<(Seq<char>, Seq<char>)> {
    v.map_values(|p: (String, String)| (p.0@, p.1@))
}

/// The whitespace-separated words of `s`.
pub fn split_words_of(s: &str) -> (r: Vec<String>)
    ensures
        strings(r@) == words(s@),
{
    let n = s.unicode_len();
    let mut out: Vec<String> = Vec::new();
    let mut start: usize = 0;
    let mut i: usize = 0;
    assert(s@.skip(0) =~= s@);
    assert(s@.subrange(0, 0) =~= Seq::<char>::empty());
    while i < n
        invariant
            n == s@.len(),
            start <= i <= n,
            words(s@) == strings(out@) + split_words(s@.skip(i as int), s@.subrange(start as int, i as int)),
        decreases n - i,
    {
        let c = s.get_char(i);
        let ghost rest = s@.skip(i as int);
        assert(rest.drop_first() =~= s@.skip(i + 1));
        assert(rest[0] == c);
        if white(c) {
            if start < i {
                let w = s.substring_char(start, i).to_owned();
                out.push(w);
                assert(strings(out@) =~= strings(out@.drop_last()) + seq![w@]);
            }
            assert(s@.subrange(i + 1, i + 1) =~= Seq::<char>::empty());
            start = i + 1;
        } else {
            assert(s@.subrange(start as int, i + 1) =~= s@.subrange(start as int, i as int).push(c));
        }
        i = i + 1;
    }
    if start < n {
        let w = s.substring_char(start, n).to_owned();
        out.push(w);
        assert(strings(out@) =~= strings(out@.drop_last()) + seq![w@]);
    }
    assert(strings(out@) =~= strings(out@) + Seq::<Seq<char>>::empty());
    out
}

/// The place of the first `=` in `s`, or its length if it has none.
pub fn first_eq_index(s: &str) -> (r: usize)
    ensures
        r == first_eq(s@),
{
    let n = s.unicode_len();
    let mut i: usize = 0;
    while i < n
        invariant
            n == s@.len(),
            i <= n,
            first_eq_from(s@, i as int) == first_eq(s@),
        decreases n - i,
    {
        if s.get_char(i) == '=' {
            return i;
        }
        i = i + 1;
    }
    n
}

/// The words joined by single spaces.
pub open spec fn join_words(ts: Seq<Seq<char>>) -> Seq<char>
    decreases ts.len(),
{
    if ts.len() == 0 {
        seq![]
    } else if ts.len() == 1 {
        ts[0]
    } else {
        ts[0] + seq![' '] + join_words(ts.drop_first())
    }
}

/// A non-empty word without white space.
pub open spec fn plain_word(w: Seq<char>) -> bool {
    w.len() > 0 && forall|i: int| 0 <= i < w.len() ==> !is_white(#[trigger] w[i])
}

pub open spec fn no_eq(w: Seq<char>) -> bool {
    forall|i: int| 0 <= i < w.len() ==> #[trigger] w[i] != '='
}

/// The word that assigns `p.1` to the variable `p.0`.
pub open spec fn env_word(p: (Seq<char>, Seq<char>)) -> Seq<char> {
    p.0 + seq!['='] + p.1
}

proof fn lemma_split_word(w: Seq<char>, r: Seq<char>, cur: Seq<char>)
    requires
        forall|i: int| 0 <= i < w.len() ==> !is_white(#[trigger] w[i]),
    ensures
        split_words(w + r, cur) == split_words(r, cur + w),
    decreases w.len(),
{
    if w.len() == 0 {
        assert(w + r =~= r);
        assert(cur + w =~= cur);
    } else {
        assert((w + r)[0] == w[0]);
        assert((w + r).drop_first() =~= w.drop_first() + r);
        lemma_split_word(w.drop_first(), r, cur.push(w[0]));
        assert(cur.push(w[0]) + w.drop_first() =~= cur + w);
    }
}

/// Joining plain words by spaces and splitting the line again gives the
/// words back.
pub proof fn lemma_words_of_join(ts: Seq<Seq<char>>)
    requires
        forall|i: int| 0 <= i < ts.len() ==> plain_word(#[trigger] ts[i]),
    ensures
        words(join_words(ts)) == ts,
    decreases ts.len(),
{
    if ts.len() == 0 {
        assert(words(join_words(ts)) =~= ts);
    } else if ts.len() == 1 {
        assert(plain_word(ts[0]));
        lemma_split_word(ts[0], seq![], seq![]);
        assert(ts[0] + Seq::<char>::empty() =~= ts[0]);
        assert(Seq::<char>::empty() + ts[0] =~= ts[0]);
        assert(words(join_words(ts)) =~= ts);
    } else {
        let rest = ts.drop_first();
        assert forall|i: int| 0 <= i < rest.len() implies plain_word(#[trigger] rest[i]) by {
            assert(rest[i] == ts[i + 1]);
        }
        lemma_words_of_join(rest);
        let tail = seq![' '] + join_words(rest);
        assert(ts[0] + seq![' '] + join_words(rest) =~= ts[0] + tail);
        assert(plain_word(ts[0]));
        lemma_split_word(ts[0], tail, seq![]);
        assert(Seq::<char>::empty() + ts[0] =~= ts[0]);
        assert(tail[0] == ' ');
        assert(tail.drop_first() =~= join_words(rest));
        assert(is_white(' '));
        assert(words(join_words(ts)) =~= ts);
    }
}

proof fn lemma_first_eq_at(k: Seq<char>, v: Seq<char>, i: int)
    requires
        0 <= i <= k.len(),
        no_eq(k),
    ensures
        first_eq_from(k + seq!['='] + v, i) == k.len(),
    decreases k.len() - i,
{
    let w = k + seq!['='] + v;
    if i < k.len() {
        assert(w[i] == k[i]);
        lemma_first_eq_at(k, v, i + 1);
    } else {
        assert(w[i] == '=');
    }
}

proof fn lemma_no_first_eq(w: Seq<char>, i: int)
    requires
        0 <= i <= w.len(),
        no_eq(w),
    ensures
        first_eq_from(w, i) == w.len(),
    decreases w.len() - i,
{
    if i < w.len() {
        lemma_no_first_eq(w, i + 1);
    }
}

proof fn lemma_env_end(t: Seq<Seq<char>>, e: int, i: int)
    requires
        0 <= i <= e < t.len(),
        forall|j: int| 0 <= j < e ==> has_eq(#[trigger] t[j]),
        !has_eq(t[e]),
    ensures
        env_end_from(t, i) == e,
    decreases e - i,
{
    if i < e {
        lemma_env_end(t, e, i + 1);
    }
}

/// An exec line built from assignments, a program and arguments parses back
/// into them, when no variable name and not the program holds a `=` and no
/// part holds white space.
pub proof fn lemma_parse_round_trip(
    env: Seq<(Seq<char>, Seq<char>)>,
    program: Seq<char>,
    args: Seq<Seq<char>>,
)
    requires
        forall|i: int|
            0 <= i < env.len() ==> plain_word(env_word(#[trigger] env[i])) && no_eq(env[i].0),
        plain_word(program),
        no_eq(program),
        forall|i: int| 0 <= i < args.len() ==> plain_word(#[trigger] args[i]),
    ensures
        parse_exec(join_words(env.map_values(|p: (Seq<char>, Seq<char>)| env_word(p)) + seq![program] + args))
            == Ok::<_, ExecError>((env, program, args)),
{
    let ew = env.map_values(|p: (Seq<char>, Seq<char>)| env_word(p));
    let t = ew + seq![program] + args;
    let e = env.len() as int;
    assert forall|i: int| 0 <= i < t.len() implies plain_word(#[trigger] t[i]) by {
        if i < e {
            assert(t[i] == env_word(env[i]));
        } else if i > e {
            assert(t[i] == args[i - e - 1]);
        }
    }
    lemma_words_of_join(t);
    assert forall|j: int| 0 <= j < e implies has_eq(#[trigger] t[j]) by {
        assert(t[j] == env_word(env[j]));
        lemma_first_eq_at(env[j].0, env[j].1, 0);
    }
    assert(t[e] == program);
    lemma_no_first_eq(program, 0);
    lemma_env_end(t, e, 0);
    let assigned = t.subrange(0, e).map_values(|w: Seq<char>| assignment(w));
    assert(assigned =~= env) by {
        assert forall|j: int| 0 <= j < e implies #[trigger] assigned[j] == env[j] by {
            let w = env_word(env[j]);
            assert(t[j] == w);
            lemma_first_eq_at(env[j].0, env[j].1, 0);
            assert(w.subrange(0, env[j].0.len() as int) =~= env[j].0);
            assert(w.subrange(env[j].0.len() as int + 1, w.len() as int) =~= env[j].1);
        }
    }
    assert(t.subrange(e + 1, t.len() as int) =~= args);
}

impl Exec {
    /// Splits the line into environment assignments, program and arguments.
    /// Leading words that hold a `=` are assignments, split at their first
    /// `=`; the first other word is the program and the rest its arguments.
    pub fn parse(&self) -> (r: Result<ParsedExec, ExecError>)
        ensures
            match (r, parse_exec(self.0@)) {
                (Ok(p), Ok(q)) => string_pairs(p.env@) == q.0 && p.program@ == q.1 && strings(p.args@)
                    == q.2,
                (Err(e), Err(f)) => e == f,
                _ => false,
            },
    {
        let t = split_words_of(self.0.as_str());
        let ghost tv = words(self.0@);
        if t.len() == 0 {
            return Err(ExecError::Empty);
        }
        let mut e: usize = 0;
        while e < t.len() && first_eq_index(t[e].as_str()) < t[e].unicode_len()
            invariant
                strings(t@) == tv,
                e <= t@.len(),
                env_end_from(tv, e as int) == env_end(tv),
                forall|i: int| 0 <= i < e ==> has_eq(#[trigger] tv[i]),
            decreases t@.len() - e,
        {
            assert(tv[e as int] == t@[e as int]@);
            e = e + 1;
        }
        assert(e < t@.len() ==> tv[e as int] == t@[e as int]@);
        if e == t.len() {
            return Err(ExecError::MissingProgram);
        }
        let mut env: Vec<(String, String)> = Vec::new();
        let mut j: usize = 0;
        while j < e
            invariant
                strings(t@) == tv,
                e < t@.len(),
                j <= e,
                forall|i: int| 0 <= i < e ==> has_eq(#[trigger] tv[i]),
                string_pairs(env@) == tv.subrange(0, j as int).map_values(|w: Seq<char>| assignment(w)),
            decreases e - j,
        {
            let w = t[j].as_str();
            assert(tv[j as int] == w@);
            let p = first_eq_index(w);
            let n = w.unicode_len();
            let key = w.substring_char(0, p).to_owned();
            let value = w.substring_char(p + 1, n).to_owned();
            assert(assignment(tv[j as int]) == (key@, value@));
            env.push((key, value));
            assert(string_pairs(env@) =~= string_pairs(env@.drop_last()) + seq![(key@, value@)]);
            assert(tv.subrange(0, j + 1) =~= tv.subrange(0, j as int).push(tv[j as int]));
            assert(tv.subrange(0, j + 1).map_values(|w: Seq<char>| assignment(w)) =~= tv.subrange(
                0,
                j as int,
            ).map_values(|w: Seq<char>| assignment(w)).push(assignment(tv[j as int])));
            j = j + 1;
        }
        let program = t[e].clone();
        let mut args: Vec<String> = Vec::new();
        let mut k: usize = e + 1;
        while k < t.len()
            invariant
                strings(t@) == tv,
                e < k <= t@.len(),
                strings(args@) == tv.subrange(e + 1, k as int),
            decreases t@.len() - k,
        {
            args.push(t[k].clone());
            assert(strings(args@) =~= strings(args@.drop_last()) + seq![t@[k as int]@]);
            assert(tv.subrange(e + 1, k + 1) =~= tv.subrange(e + 1, k as int).push(tv[k as int]));
            k = k + 1;
        }
        assert(strings(args@) == tv.subrange(e + 1, tv.len() as int));
        Ok(ParsedExec { env, program, args })
    }
}

} // verus!
