use vstd::prelude::*;
use vstd::string::StringExecFns;
use crate::strutil::{str_eq, string_views};
use crate::token::Token;

verus! {

#[verifier::external_type_specification]
#[verifier::external_body]
pub struct ExPattern(grok::Pattern);

/// Whether a pattern string compiles over grok's default definitions.
pub uninterp spec fn compiles_of(pat: Seq<char>) -> bool;

/// Whether the pattern compiled from `pat` over grok's default definitions
/// matches `text` with at least one named capture.
pub uninterp spec fn has_capture(pat: Seq<char>, text: Seq<char>) -> bool;

/// Relies on grok::patterns: the default named pattern definitions, in load
/// order, as (name, definition) pairs.
#[verifier::external_body]
pub fn base_patterns() -> &'static [(&'static str, &'static str)] {
    grok::patterns()
}

/// Relies on grok::Grok::with_default_patterns and grok::Grok::compile: over
/// the default definitions, whether a pattern string compiles — and the
/// compiled pattern itself — depend on the pattern string alone.
#[verifier::external_body]
fn compile_with_defaults(pattern: &str) -> (r: Option<grok::Pattern>)
    ensures
        (r is Some) == compiles_of(pattern@),
{
    let g = grok::Grok::with_default_patterns();
    match g.compile(pattern, false) {
        Result::Ok(p) => Option::Some(p),
        Result::Err(_) => Option::None,
    }
}

/// One compiled curated pattern: its name, the `%{NAME}` reference handed to
/// callers, the anchored source `^%{NAME}.?$` it was compiled from, and the
/// compiled pattern.
struct PatternEntry {
    name: String,
    grok_pattern: String,
    anchored: String,
    pattern: grok::Pattern,
}

/// Relies on grok::Pattern::match_against and grok::Matches::iter: whether
/// the pattern compiled from `e.anchored` matches the text with at least one
/// named capture depends on that pattern string and the text alone. Entries
/// exist only inside a `GrokGenerator`, whose constructor compiles
/// `e.anchored` itself over the default definitions.
#[verifier::external_body]
fn sample_has_capture(e: &PatternEntry, s: &str) -> (r: bool)
    ensures
        r == has_capture(e.anchored@, s@),
{
    match e.pattern.match_against(s) {
        Option::Some(m) => {
            let mut it = m.iter();
            it.next().is_some()
        },
        Option::None => false,
    }
}

/// The curated names whose matches carry semantic weight; only these take part
/// in scoring.
pub open spec fn is_good_name(s: Seq<char>) -> bool {
    ||| s == "PATH"@
    ||| s == "URI"@
    ||| s == "DATE"@
    ||| s == "MAC"@
    ||| s == "IP"@
    ||| s == "HOSTPORT"@
    ||| s == "USERNAME"@
    ||| s == "BASE16NUM"@
    ||| s == "SYSLOGTIMESTAMP"@
    ||| s == "QS"@
    ||| s == "HOSTNAME"@
}

/// The curated names in the order the generator loads them: a sharper name
/// such as `IP` stands before a broader one such as `HOSTNAME`, so that it
/// wins a scoring tie.
pub open spec fn curated_names() -> Seq<Seq<char>> {
    seq![
        "PATH"@,
        "URI"@,
        "DATE"@,
        "MAC"@,
        "IP"@,
        "HOSTPORT"@,
        "USERNAME"@,
        "BASE16NUM"@,
        "SYSLOGTIMESTAMP"@,
        "QS"@,
        "HOSTNAME"@,
    ]
}

/// The `%{NAME}` reference for a pattern name.
pub open spec fn percent_of(name: Seq<char>) -> Seq<char> {
    "%{"@ + name + "}"@
}

/// The anchored form a curated pattern is compiled from: a full-line match
/// with one optional trailing character.
pub open spec fn anchored_of(name: Seq<char>) -> Seq<char> {
    "^"@ + percent_of(name) + ".?$"@
}

/// Every curated pattern compiles over the default definitions.
pub open spec fn all_curated_compile() -> bool {
    forall|j: int|
        0 <= j < curated_names().len() ==> compiles_of(anchored_of(#[trigger] curated_names()[j]))
}

/// How many of the first `i` texts the pattern compiled from `pat` matches
/// with a capture.
pub open spec fn score_upto(pat: Seq<char>, texts: Seq<Seq<char>>, i: int) -> int
    decreases i,
{
    if i <= 0 {
        0
    } else {
        score_upto(pat, texts, i - 1) + if has_capture(pat, texts[i - 1]) {
            1int
        } else {
            0int
        }
    }
}

/// A pattern's score against a sample set: the count of samples it matches
/// with a capture.
pub open spec fn score_of(pat: Seq<char>, texts: Seq<Seq<char>>) -> int {
    score_upto(pat, texts, texts.len() as int)
}

/// Whether this pattern name is on the curated allow-list.
pub fn is_a_good_pattern(pattern: &str) -> (r: bool)
    ensures
        r == is_good_name(pattern@),
{
    str_eq(pattern, "PATH") || str_eq(pattern, "URI") || str_eq(pattern, "DATE") || str_eq(
        pattern,
        "MAC",
    ) || str_eq(pattern, "IP") || str_eq(pattern, "HOSTPORT") || str_eq(pattern, "USERNAME")
        || str_eq(pattern, "BASE16NUM") || str_eq(pattern, "SYSLOGTIMESTAMP") || str_eq(
        pattern,
        "QS",
    ) || str_eq(pattern, "HOSTNAME")
}

/// The curated name at position `i` of the load order.
fn curated_name(i: usize) -> (r: &'static str)
    requires
        i < 11,
    ensures
        r@ == curated_names()[i as int],
{
    match i {
        0 => "PATH",
        1 => "URI",
        2 => "DATE",
        3 => "MAC",
        4 => "IP",
        5 => "HOSTPORT",
        6 => "USERNAME",
        7 => "BASE16NUM",
        8 => "SYSLOGTIMESTAMP",
        9 => "QS",
        _ => "HOSTNAME",
    }
}

/// A library of compiled named-capture patterns, scored against the sample
/// set of a wildcard token.
pub struct GrokGenerator {
    compiled: Vec<PatternEntry>,
}

impl GrokGenerator {
    /// The names of the compiled patterns, in load order.
    pub closed spec fn names(self) -> Seq<Seq<char>> {
        self.compiled@.map_values(|e: PatternEntry| e.name@)
    }

    /// The pattern references handed back by scoring, in load order.
    pub closed spec fn pattern_strs(self) -> Seq<Seq<char>> {
        self.compiled@.map_values(|e: PatternEntry| e.grok_pattern@)
    }

    /// The anchored pattern strings the patterns were compiled from, in load
    /// order.
    pub closed spec fn anchoreds(self) -> Seq<Seq<char>> {
        self.compiled@.map_values(|e: PatternEntry| e.anchored@)
    }

    /// Every compiled pattern is a curated one, reported as `%{NAME}` and
    /// compiled from `^%{NAME}.?$`.
    pub open spec fn wf(self) -> bool {
        &&& self.names().len() == self.pattern_strs().len()
        &&& self.names().len() == self.anchoreds().len()
        &&& forall|i: int|
            0 <= i < self.names().len() ==> is_good_name(#[trigger] self.names()[i])
                && self.pattern_strs()[i] == percent_of(self.names()[i]) && self.anchoreds()[i]
                == anchored_of(self.names()[i])
    }

    /// Compiles each curated pattern over the default definitions, anchored
    /// as `^%{NAME}.?$`, in allow-list order. Succeeds exactly when every
    /// curated pattern compiles, and then holds exactly the curated names in
    /// that order.
    pub fn new_with_base_patterns() -> (r: Option<GrokGenerator>)
        ensures
            (r is Some) == all_curated_compile(),
            r matches Some(g) ==> g.wf() && g.names() == curated_names(),
    {
        let mut compiled: Vec<PatternEntry> = Vec::new();
        let mut i: usize = 0;
        while i < 11
            invariant
                i <= 11,
                compiled@.len() == i,
                forall|j: int|
                    0 <= j < i ==> (#[trigger] compiled@[j]).name@ == curated_names()[j],
                forall|j: int|
                    0 <= j < i ==> (#[trigger] compiled@[j]).grok_pattern@ == percent_of(
                        curated_names()[j],
                    ),
                forall|j: int|
                    0 <= j < i ==> (#[trigger] compiled@[j]).anchored@ == anchored_of(
                        curated_names()[j],
                    ),
                forall|j: int|
                    0 <= j < i ==> compiles_of(anchored_of(#[trigger] curated_names()[j])),
            decreases 11 - i,
        {
            let name = curated_name(i);
            let mut grok_pattern = "%{".to_owned();
            StringExecFns::append(&mut grok_pattern, name);
            StringExecFns::append(&mut grok_pattern, "}");
            let mut anchored = "^".to_owned();
            StringExecFns::append(&mut anchored, grok_pattern.as_str());
            StringExecFns::append(&mut anchored, ".?$");
            proof {
                assert(grok_pattern@ =~= percent_of(curated_names()[i as int]));
                assert(anchored@ =~= anchored_of(curated_names()[i as int]));
            }
            match compile_with_defaults(anchored.as_str()) {
                Option::Some(p) => {
                    compiled.push(
                        PatternEntry {
                            name: name.to_owned(),
                            grok_pattern,
                            anchored,
                            pattern: p,
                        },
                    );
                },
                Option::None => {
                    proof {
                        assert(!compiles_of(anchored_of(curated_names()[i as int])));
                        assert(!all_curated_compile());
                    }
                    return Option::None;
                },
            }
            i = i + 1;
        }
        let g = GrokGenerator { compiled };
        proof {
            assert(forall|j: int|
                0 <= j < 11 ==> #[trigger] g.names()[j] == g.compiled@[j].name@);
            assert(forall|j: int|
                0 <= j < 11 ==> #[trigger] g.pattern_strs()[j] == g.compiled@[j].grok_pattern@);
            assert(forall|j: int|
                0 <= j < 11 ==> #[trigger] g.anchoreds()[j] == g.compiled@[j].anchored@);
            assert(g.names() =~= curated_names());
            assert forall|j: int| 0 <= j < g.names().len() implies is_good_name(
                #[trigger] g.names()[j],
            ) by {
                assert(g.names()[j] == curated_names()[j]);
            }
            assert(all_curated_compile());
        }
        Option::Some(g)
    }

    /// How many of the samples this compiled pattern matches with a capture.
    fn pattern_score(e: &PatternEntry, strings: &Vec<String>) -> (n: usize)
        ensures
            n == score_of(e.anchored@, string_views(strings@)),
            n <= strings@.len(),
    {
        let mut n: usize = 0;
        let mut i: usize = 0;
        while i < strings.len()
            invariant
                i <= strings@.len(),
                n <= i,
                n == score_upto(e.anchored@, string_views(strings@), i as int),
            decreases strings@.len() - i,
        {
            proof {
                assert(string_views(strings@)[i as int] == strings@[i as int]@);
            }
            if sample_has_capture(e, strings[i].as_str()) {
                n = n + 1;
            }
            i = i + 1;
        }
        n
    }

    /// The best-scoring pattern reference for the samples: `None` exactly
    /// when no pattern matches any sample (so always for no samples);
    /// otherwise `%{NAME}` of the first pattern in load order whose score —
    /// the count of samples it matches with a capture — is maximal.
    pub fn detect_grok_for_a_list_of_string(&self, strings: &Vec<String>) -> (r: Option<String>)
        ensures
            (r is None) == (forall|i: int|
                0 <= i < self.anchoreds().len() ==> score_of(
                    #[trigger] self.anchoreds()[i],
                    string_views(strings@),
                ) == 0),
            strings@.len() == 0 ==> r is None,
            r matches Some(s) ==> exists|i: int|
                #![auto]
                0 <= i < self.anchoreds().len() && s@ == self.pattern_strs()[i] && score_of(
                    self.anchoreds()[i],
                    string_views(strings@),
                ) > 0 && (forall|j: int|
                    0 <= j < self.anchoreds().len() ==> score_of(
                        #[trigger] self.anchoreds()[j],
                        string_views(strings@),
                    ) <= score_of(self.anchoreds()[i], string_views(strings@))) && (forall|j: int|
                    0 <= j < i ==> score_of(#[trigger] self.anchoreds()[j], string_views(strings@))
                        < score_of(self.anchoreds()[i], string_views(strings@))),
    {
        let ghost texts = string_views(strings@);
        let mut scores: Vec<usize> = Vec::new();
        let mut i: usize = 0;
        while i < self.compiled.len()
            invariant
                scores@.len() == i,
                i <= self.compiled@.len(),
                texts == string_views(strings@),
                forall|j: int|
                    0 <= j < i ==> #[trigger] scores@[j] == score_of(self.anchoreds()[j], texts),
            decreases self.compiled@.len() - i,
        {
            proof {
                assert(self.anchoreds()[i as int] == self.compiled@[i as int].anchored@);
            }
            scores.push(Self::pattern_score(&self.compiled[i], strings));
            i = i + 1;
        }
        proof {
            if strings@.len() == 0 {
                assert(forall|j: int|
                    0 <= j < self.anchoreds().len() ==> score_of(
                        #[trigger] self.anchoreds()[j],
                        texts,
                    ) == 0);
            }
        }
        proof {
            assert(scores@.len() == self.anchoreds().len());
        }
        match best_pattern_index(&scores) {
            Option::None => {
                proof {
                    assert forall|i2: int| 0 <= i2 < self.anchoreds().len() implies score_of(
                        #[trigger] self.anchoreds()[i2],
                        string_views(strings@),
                    ) == 0 by {
                        assert(scores@[i2] == score_of(self.anchoreds()[i2], texts));
                        assert(scores@[i2] == 0);
                    }
                }
                Option::None
            },
            Option::Some(k) => {
                proof {
                    assert(scores@[k as int] == score_of(self.anchoreds()[k as int], texts));
                    assert(scores@[k as int] > 0);
                    assert(self.pattern_strs()[k as int] == self.compiled@[k as int].grok_pattern@);
                    assert forall|j: int| 0 <= j < self.anchoreds().len() implies score_of(
                        #[trigger] self.anchoreds()[j],
                        texts,
                    ) <= score_of(self.anchoreds()[k as int], texts) by {
                        assert(scores@[j] == score_of(self.anchoreds()[j], texts));
                    }
                    assert forall|j: int| 0 <= j < k implies score_of(
                        #[trigger] self.anchoreds()[j],
                        texts,
                    ) < score_of(self.anchoreds()[k as int], texts) by {
                        assert(scores@[j] == score_of(self.anchoreds()[j], texts));
                    }
                }
                Option::Some(self.compiled[k].grok_pattern.clone())
            },
        }
    }
}

/// The winner of a score list: the first index carrying the highest score,
/// provided that score is positive; `None` when every score is zero.
pub fn best_pattern_index(scores: &Vec<usize>) -> (r: Option<usize>)
    ensures
        match r {
            Option::None => forall|j: int| 0 <= j < scores@.len() ==> scores@[j] == 0,
            Option::Some(i) => i < scores@.len() && scores@[i as int] > 0 && (forall|j: int|
                0 <= j < scores@.len() ==> scores@[j] <= scores@[i as int]) && (forall|j: int|
                0 <= j < i ==> scores@[j] < scores@[i as int]),
        },
{
    let mut best: usize = 0;
    let mut best_idx: Option<usize> = Option::None;
    let mut i: usize = 0;
    while i < scores.len()
        invariant
            i <= scores@.len(),
            match best_idx {
                Option::None => best == 0 && forall|j: int| 0 <= j < i ==> scores@[j] == 0,
                Option::Some(k) => k < i && best == scores@[k as int] && best > 0 && (forall|
                    j: int,
                |
                    0 <= j < i ==> scores@[j] <= best) && (forall|j: int|
                    0 <= j < k ==> scores@[j] < best),
            },
        decreases scores@.len() - i,
    {
        if scores[i] > best {
            best = scores[i];
            best_idx = Option::Some(i);
        }
        i = i + 1;
    }
    best_idx
}

impl Token {
    /// The best pattern reference for this token: the literal itself for a
    /// constant; for a wildcard, the generator's best-scoring pattern over
    /// its samples — the first in load order with the maximal positive score
    /// — or `<unknown>` when no pattern matches any sample (so always when no
    /// sample was seen).
    pub fn detect_best_grok(&self, grok_generator: &GrokGenerator) -> (r: String)
        ensures
            self@ is Constant ==> r@ == self@->Constant_0,
            self@ is Wildcard && (forall|i: int|
                0 <= i < grok_generator.anchoreds().len() ==> score_of(
                    #[trigger] grok_generator.anchoreds()[i],
                    self@.samples(),
                ) == 0) ==> r@ == "<unknown>"@,
            self@ is Wildcard && !(forall|i: int|
                0 <= i < grok_generator.anchoreds().len() ==> score_of(
                    #[trigger] grok_generator.anchoreds()[i],
                    self@.samples(),
                ) == 0) ==> exists|i: int|
                #![auto]
                0 <= i < grok_generator.anchoreds().len() && r@
                    == grok_generator.pattern_strs()[i] && score_of(
                    grok_generator.anchoreds()[i],
                    self@.samples(),
                ) > 0 && (forall|j: int|
                    0 <= j < grok_generator.anchoreds().len() ==> score_of(
                        #[trigger] grok_generator.anchoreds()[j],
                        self@.samples(),
                    ) <= score_of(grok_generator.anchoreds()[i], self@.samples())) && (forall|
                    j: int,
                |
                    0 <= j < i ==> score_of(#[trigger] grok_generator.anchoreds()[j], self@.samples())
                        < score_of(grok_generator.anchoreds()[i], self@.samples())),
    {
        match self.as_string_vector() {
            Option::None => self.as_string(),
            Option::Some(v) => {
                proof {
                    assert(string_views(v@) == self@.samples());
                }
                match grok_generator.detect_grok_for_a_list_of_string(&v) {
                    Option::Some(s) => s,
                    Option::None => "<unknown>".to_owned(),
                }
            },
        }
    }
}

} // verus!
