//! Package-name patterns: globs are matched here, regular expressions
//! through the regex crate.

use vstd::prelude::*;

verus! {

#[verifier::external_type_specification]
#[verifier::external_body]
pub struct ExRegex(regex::Regex);

#[verifier::external_type_specification]
#[verifier::external_body]
pub struct ExRegexError(regex::Error);

/// Whether the regex crate accepts `pattern` as a regular expression.
pub uninterp spec fn regex_compiles(pattern: Seq<char>) -> bool;

/// Whether the regular expression `pattern` matches somewhere in `text`.
pub uninterp spec fn regex_is_match(pattern: Seq<char>, text: Seq<char>) -> bool;

/// Whether the glob `p` matches the whole of `s`: `*` matches any run of
/// characters, `?` any one character, and every other character itself.
pub open spec fn glob_match(p: Seq<char>, s: Seq<char>) -> bool
    decreases p.len() + s.len(),
{
    if p.len() == 0 {
        s.len() == 0
    } else if p[0] == '*' {
        glob_match(p.drop_first(), s) || (s.len() > 0 && glob_match(p, s.drop_first()))
    } else {
        s.len() > 0 && (p[0] == '?' || p[0] == s[0]) && glob_match(p.drop_first(), s.drop_first())
    }
}

/// Whether `pattern` is usable: any glob is, a regular expression if the
/// regex crate accepts it.
pub open spec fn pattern_valid(regex: bool, pattern: Seq<char>) -> bool {
    !regex || regex_compiles(pattern)
}

/// Whether `name` matches `pattern`, read as a regular expression (found
/// anywhere in the name) or as a glob (matching the whole name).
pub open spec fn pattern_matches(regex: bool, pattern: Seq<char>, name: Seq<char>) -> bool {
    if regex {
        regex_is_match(pattern, name)
    } else {
        glob_match(pattern, name)
    }
}

/// Whether one of `patterns` matches `name`.
pub open spec fn any_matches(regex: bool, patterns: Seq<String>, name: Seq<char>) -> bool {
    exists|i: int| 0 <= i < patterns.len() && pattern_matches(regex, (#[trigger] patterns[i])@, name)
}

/// A regular expression together with the text it was compiled from.
pub struct CompiledRegex {
    source: String,
    re: regex::Regex,
}

impl CompiledRegex {
    pub closed spec fn source(&self) -> Seq<char> {
        self.source@
    }
}

/// Relies on regex::Regex::new: whether it accepts a pattern depends on the
/// pattern alone. The compiled regex is kept with its source text.
#[verifier::external_body]
fn compile_regex(pattern: &String) -> (r: Result<CompiledRegex, regex::Error>)
    ensures
        r is Ok <==> regex_compiles(pattern@),
        r matches Ok(c) ==> c.source() == pattern@,
{
    match regex::Regex::new(pattern) {
        Ok(re) => Ok(CompiledRegex { source: pattern.clone(), re }),
        Err(e) => Err(e),
    }
}

/// Relies on regex::Regex::is_match: whether the regex matches anywhere in
/// the haystack, which depends on its source text and the haystack alone.
#[verifier::external_body]
fn regex_find(c: &CompiledRegex, text: &String) -> (r: bool)
    ensures
        r == regex_is_match(c.source(), text@),
{
    c.re.is_match(text)
}

/// Relies on the Display of regex::Error: the error's message.
#[verifier::external_body]
pub(crate) fn regex_error_message(e: &regex::Error) -> String {
    e.to_string()
}

fn chars_of(s: &str) -> (r: Vec<char>)
    ensures
        r@ == s@,
{
    let mut v: Vec<char> = Vec::new();
    for c in it: s.chars()
        invariant
            v@ == it.seq().take(it.index()),
    {
        v.push(c);
    }
    v
}

/// One step of `glob_match` on the suffixes from `i` and `j`.
proof fn lemma_glob_step(p: Seq<char>, s: Seq<char>, i: int, j: int)
    requires
        0 <= i < p.len(),
        0 <= j <= s.len(),
    ensures
        glob_match(p.skip(i), s.skip(j)) == if p[i] == '*' {
            glob_match(p.skip(i + 1), s.skip(j)) || (j < s.len() && glob_match(
                p.skip(i),
                s.skip(j + 1),
            ))
        } else {
            j < s.len() && (p[i] == '?' || p[i] == s[j]) && glob_match(p.skip(i + 1), s.skip(j + 1))
        },
{
    assert(p.skip(i).drop_first() =~= p.skip(i + 1));
    assert(p.skip(i)[0] == p[i]);
    if j < s.len() {
        assert(s.skip(j).drop_first() =~= s.skip(j + 1));
        assert(s.skip(j)[0] == s[j]);
    }
}

proof fn lemma_glob_end(p: Seq<char>, s: Seq<char>, j: int)
    requires
        0 <= j <= s.len(),
    ensures
        glob_match(p.skip(p.len() as int), s.skip(j)) == (j == s.len()),
{
    assert(p.skip(p.len() as int).len() == 0);
}

/// Whether the glob `p` matches the whole of `s`, by dynamic programming
/// over suffixes, one row of the pattern at a time.
pub fn glob_matches(p: &Vec<char>, s: &Vec<char>) -> (r: bool)
    ensures
        r == glob_match(p@, s@),
{
    let n = s.len();
    // next[t] and next_end: whether p[i..] matches s[t..] and s[n..]
    let mut next: Vec<bool> = Vec::new();
    while next.len() < n
        invariant
            n == s@.len(),
            next@.len() <= n,
            forall|t: int| 0 <= t < next@.len() ==> next@[t] == glob_match(
                p@.skip(p@.len() as int),
                s@.skip(t),
            ),
        decreases n - next@.len(),
    {
        proof {
            lemma_glob_end(p@, s@, next@.len() as int);
        }
        next.push(false);
    }
    let mut next_end = true;
    proof {
        lemma_glob_end(p@, s@, n as int);
    }
    let mut i = p.len();
    while i > 0
        invariant
            n == s@.len(),
            0 <= i <= p@.len(),
            next@.len() == n,
            forall|t: int| 0 <= t < n ==> next@[t] == glob_match(p@.skip(i as int), s@.skip(t)),
            next_end == glob_match(p@.skip(i as int), s@.skip(n as int)),
        decreases i,
    {
        let i1 = i - 1;
        let c = p[i1];
        proof {
            lemma_glob_step(p@, s@, i1 as int, n as int);
        }
        let cur_end = c == '*' && next_end;
        let mut cur: Vec<bool> = Vec::new();
        while cur.len() < n
            invariant
                cur@.len() <= n,
            decreases n - cur@.len(),
        {
            cur.push(false);
        }
        let mut later = cur_end;
        let mut j = n;
        while j > 0
            invariant
                n == s@.len(),
                i1 < p@.len(),
                c == p@[i1 as int],
                0 <= j <= n,
                cur@.len() == n,
                next@.len() == n,
                forall|t: int| 0 <= t < n ==> next@[t] == glob_match(p@.skip(i1 + 1), s@.skip(t)),
                next_end == glob_match(p@.skip(i1 + 1), s@.skip(n as int)),
                forall|t: int| j <= t < n ==> cur@[t] == glob_match(p@.skip(i1 as int), s@.skip(t)),
                later == glob_match(p@.skip(i1 as int), s@.skip(j as int)),
            decreases j,
        {
            let j1 = j - 1;
            proof {
                lemma_glob_step(p@, s@, i1 as int, j1 as int);
            }
            let after = if j < n {
                next[j]
            } else {
                next_end
            };
            let v = if c == '*' {
                next[j1] || later
            } else {
                (c == '?' || c == s[j1]) && after
            };
            cur.set(j1, v);
            later = v;
            j = j1;
        }
        next = cur;
        next_end = cur_end;
        i = i1;
    }
    assert(p@.skip(0) =~= p@);
    assert(s@.skip(0) =~= s@);
    if n == 0 {
        next_end
    } else {
        next[0]
    }
}

/// A compiled name pattern.
pub enum NamePattern {
    Glob(Vec<char>),
    Regex(CompiledRegex),
}

impl NamePattern {
    pub closed spec fn is_regex(&self) -> bool {
        self is Regex
    }

    /// The text the pattern was compiled from.
    pub closed spec fn source(&self) -> Seq<char> {
        match self {
            NamePattern::Glob(g) => g@,
            NamePattern::Regex(c) => c.source(),
        }
    }

    /// Compiles `pattern` as a regular expression when `regex` holds, as a
    /// glob otherwise; only a regular expression can fail.
    pub fn compile(pattern: &String, regex: bool) -> (r: Result<NamePattern, regex::Error>)
        ensures
            r is Ok <==> pattern_valid(regex, pattern@),
            r matches Ok(np) ==> np.is_regex() == regex && np.source() == pattern@,
    {
        if regex {
            match compile_regex(pattern) {
                Ok(c) => Ok(NamePattern::Regex(c)),
                Err(e) => Err(e),
            }
        } else {
            Ok(NamePattern::Glob(chars_of(pattern.as_str())))
        }
    }

    /// Whether `name` matches this pattern.
    pub fn is_match(&self, name: &String) -> (r: bool)
        ensures
            r == pattern_matches(self.is_regex(), self.source(), name@),
    {
        match self {
            NamePattern::Glob(g) => glob_matches(g, &chars_of(name.as_str())),
            NamePattern::Regex(c) => regex_find(c, name),
        }
    }
}

} // verus!
