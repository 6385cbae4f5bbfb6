use vstd::prelude::*;
use vstd::string::StrSliceExecFns;
use crate::strutil::{
    insert_sorted, join_all, join_strings, lemma_insert_sorted_props, lemma_insert_sorted_split,
    lex_lt, sorted_strict, str_eq, str_lt, string_views,
};

verus! {

/// Upper bound on the number of distinct sample strings a wildcard token keeps.
pub const MAX_WILDCARD_SAMPLES: usize = 10;

/// The mathematical value of a token: a constant literal, or a wildcard with
/// its sorted, duplicate-free set of observed sample strings.
pub ghost enum TokenModel {
    Constant(Seq<char>),
    Wildcard(Seq<Seq<char>>),
}

impl TokenModel {
    /// A wildcard's samples are sorted, duplicate-free and capped.
    pub open spec fn wf(self) -> bool {
        match self {
            TokenModel::Constant(_) => true,
            TokenModel::Wildcard(s) => sorted_strict(s) && s.len() <= MAX_WILDCARD_SAMPLES,
        }
    }

    pub open spec fn is_wildcard(self) -> bool {
        self is Wildcard
    }

    pub open spec fn samples(self) -> Seq<Seq<char>> {
        self->Wildcard_0
    }

    /// The compact rendering: the literal of a constant, `<*>` for a wildcard.
    pub open spec fn render(self) -> Seq<char> {
        match self {
            TokenModel::Constant(s) => s,
            TokenModel::Wildcard(_) => "<*>"@,
        }
    }

    /// The detailed rendering: the literal of a constant, the sorted samples of
    /// a wildcard between `<** [` and `] **>`.
    pub open spec fn detailed(self) -> Seq<char> {
        match self {
            TokenModel::Constant(s) => s,
            TokenModel::Wildcard(v) => "<** ["@ + join_all(v, ", "@) + "] **>"@,
        }
    }

    /// Absorbing a sample: a no-op on constants and on wildcards at the cap,
    /// a sorted set insertion otherwise.
    pub open spec fn absorb(self, x: Seq<char>) -> TokenModel {
        match self {
            TokenModel::Constant(_) => self,
            TokenModel::Wildcard(s) => if s.len() < MAX_WILDCARD_SAMPLES {
                TokenModel::Wildcard(insert_sorted(s, x))
            } else {
                self
            },
        }
    }
}

/// A position in a log template: either a constant literal that every folded
/// line agreed on, or a wildcard recording up to `MAX_WILDCARD_SAMPLES`
/// distinct values seen at that position (kept in sorted order).
pub enum Token {
    WildCard(Vec<String>),
    Val(String),
}

impl View for Token {
    type V = TokenModel;

    open spec fn view(&self) -> TokenModel {
        match self {
            Token::WildCard(v) => TokenModel::Wildcard(string_views(v@)),
            Token::Val(s) => TokenModel::Constant(s@),
        }
    }
}

impl Token {
    pub open spec fn wf(&self) -> bool {
        self@.wf()
    }

    /// A wildcard seeded with a single observed value.
    pub fn new_wildcard(init_string: String) -> (r: Token)
        ensures
            r@ == TokenModel::Wildcard(seq![init_string@]),
            r.wf(),
    {
        let mut v: Vec<String> = Vec::new();
        v.push(init_string);
        proof {
            assert(string_views(v@) =~= seq![init_string@]);
        }
        Token::WildCard(v)
    }

    /// A wildcard seeded with the literal of a constant token.
    pub fn new_wildcard_from_token(init_token: Token) -> (r: Token)
        requires
            init_token@ is Constant,
        ensures
            r@ == TokenModel::Wildcard(seq![init_token@->Constant_0]),
            r.wf(),
    {
        match init_token {
            Token::Val(s) => Token::new_wildcard(s),
            Token::WildCard(v) => Token::WildCard(v),
        }
    }

    /// A wildcard that has not yet observed any value.
    pub fn new_empty_wildcard() -> (r: Token)
        ensures
            r@ == TokenModel::Wildcard(Seq::<Seq<char>>::empty()),
            r.wf(),
    {
        let v: Vec<String> = Vec::new();
        proof {
            assert(string_views(v@) =~= Seq::<Seq<char>>::empty());
        }
        Token::WildCard(v)
    }

    pub fn is_wildcard(&self) -> (r: bool)
        ensures
            r == self@.is_wildcard(),
    {
        match self {
            Token::WildCard(_) => true,
            Token::Val(_) => false,
        }
    }

    /// A structural copy.
    pub fn duplicate(&self) -> (r: Token)
        ensures
            r@ == self@,
    {
        match self {
            Token::Val(s) => Token::Val(s.clone()),
            Token::WildCard(v) => {
                let mut out: Vec<String> = Vec::new();
                let mut i: usize = 0;
                while i < v.len()
                    invariant
                        i <= v.len(),
                        out@.len() == i,
                        forall|j: int| 0 <= j < i ==> out@[j]@ == v@[j]@,
                    decreases v.len() - i,
                {
                    out.push(v[i].clone());
                    i = i + 1;
                }
                proof {
                    assert(string_views(out@) =~= string_views(v@));
                }
                Token::WildCard(out)
            },
        }
    }

    /// Absorbs one sample string, keeping the wildcard's sample set sorted,
    /// duplicate-free and within the cap; a no-op on constants.
    pub fn absorb_str(&mut self, x: &str)
        requires
            old(self).wf(),
        ensures
            final(self)@ == old(self)@.absorb(x@),
            final(self).wf(),
    {
        match self {
            Token::Val(_) => {},
            Token::WildCard(v) => {
                if v.len() < MAX_WILDCARD_SAMPLES {
                    wildcard_insert(v, x);
                    proof {
                        lemma_insert_sorted_props(old(self)@->Wildcard_0, x@);
                    }
                }
            },
        }
    }

    /// Absorbs the rendering of another token if this token is a wildcard with
    /// room left; otherwise does nothing.
    pub fn add_token_if_wildcard(&mut self, new_token: &Token)
        requires
            old(self).wf(),
        ensures
            final(self)@ == old(self)@.absorb(new_token@.render()),
            final(self).wf(),
    {
        let rendered = new_token.as_string();
        self.absorb_str(rendered.as_str());
    }

    /// The compact rendering of this token.
    pub fn as_string(&self) -> (r: String)
        ensures
            r@ == self@.render(),
    {
        match self {
            Token::Val(s) => s.clone(),
            Token::WildCard(_) => "<*>".to_owned(),
        }
    }

    /// The detailed rendering of this token, listing a wildcard's samples.
    pub fn as_detailed_string(&self) -> (r: String)
        ensures
            r@ == self@.detailed(),
    {
        match self {
            Token::Val(s) => s.clone(),
            Token::WildCard(v) => {
                let mut r = "<** [".to_owned();
                let joined = join_strings(v, ", ");
                vstd::string::StringExecFns::append(&mut r, joined.as_str());
                vstd::string::StringExecFns::append(&mut r, "] **>");
                proof {
                    assert(r@ =~= "<** ["@ + join_all(string_views(v@), ", "@) + "] **>"@);
                }
                r
            },
        }
    }

    /// The sample strings of a wildcard; `None` for a constant.
    pub fn as_string_vector(&self) -> (r: Option<Vec<String>>)
        ensures
            match r {
                Option::None => self@ is Constant,
                Option::Some(v) => self@ is Wildcard && string_views(v@) == self@.samples(),
            },
    {
        match self {
            Token::Val(_) => Option::None,
            Token::WildCard(v) => {
                let mut out: Vec<String> = Vec::new();
                let mut i: usize = 0;
                while i < v.len()
                    invariant
                        i <= v.len(),
                        out@.len() == i,
                        forall|j: int| 0 <= j < i ==> out@[j]@ == v@[j]@,
                    decreases v.len() - i,
                {
                    out.push(v[i].clone());
                    i = i + 1;
                }
                proof {
                    assert(string_views(out@) =~= string_views(v@));
                }
                Option::Some(out)
            },
        }
    }
}

/// The token a serialized string denotes: the wildcard placeholder `<*>`
/// yields a wildcard that has not observed a value, any other string a
/// constant — the reading side of the lossy wire format.
pub fn token_from_str(s: &str) -> (r: Token)
    ensures
        s@ == "<*>"@ ==> r@ == TokenModel::Wildcard(Seq::<Seq<char>>::empty()),
        s@ != "<*>"@ ==> r@ == TokenModel::Constant(s@),
        r.wf(),
{
    if str_eq(s, "<*>") {
        Token::new_empty_wildcard()
    } else {
        Token::Val(s.to_owned())
    }
}

/// Sample cap: a well-formed wildcard token never holds more than
/// `MAX_WILDCARD_SAMPLES` samples, and absorbing keeps it that way.
pub proof fn lemma_sample_cap(m: TokenModel, x: Seq<char>)
    requires
        m.wf(),
    ensures
        m is Wildcard ==> m.samples().len() <= MAX_WILDCARD_SAMPLES,
        m.absorb(x).wf(),
{
    if m is Wildcard && m.samples().len() < MAX_WILDCARD_SAMPLES {
        lemma_insert_sorted_props(m.samples(), x);
    }
}

/// Monotonicity of a single absorb: a wildcard stays a wildcard, keeps every
/// sample it had, and gains nothing but the absorbed string.
pub proof fn lemma_absorb_monotone(m: TokenModel, x: Seq<char>)
    requires
        m.wf(),
        m is Wildcard,
    ensures
        m.absorb(x) is Wildcard,
        m.absorb(x).wf(),
        forall|e: Seq<char>| m.samples().contains(e) ==> m.absorb(x).samples().contains(e),
        forall|e: Seq<char>|
            m.absorb(x).samples().contains(e) ==> m.samples().contains(e) || e == x,
{
    if m.samples().len() < MAX_WILDCARD_SAMPLES {
        lemma_insert_sorted_props(m.samples(), x);
    }
}

/// Inserts a string into a sorted duplicate-free vector of strings, keeping it
/// sorted and duplicate-free.
fn wildcard_insert(v: &mut Vec<String>, x: &str)
    requires
        sorted_strict(string_views(old(v)@)),
        old(v)@.len() < usize::MAX,
    ensures
        string_views(final(v)@) == insert_sorted(string_views(old(v)@), x@),
{
    let ghost s = string_views(old(v)@);
    let mut i: usize = 0;
    while i < v.len() && str_lt(v[i].as_str(), x)
        invariant
            i <= v@.len(),
            v@ == old(v)@,
            s == string_views(v@),
            forall|j: int| 0 <= j < i ==> lex_lt(s[j], x@),
        decreases v@.len() - i,
    {
        proof {
            assert(string_views(v@)[i as int] == v@[i as int]@);
            assert(s[i as int] == v@[i as int]@);
        }
        i = i + 1;
    }
    proof {
        if i < v.len() {
            assert(string_views(v@)[i as int] == v@[i as int]@);
            assert(s[i as int] == v@[i as int]@);
        }
    }
    if i < v.len() && str_eq(v[i].as_str(), x) {
        proof {
            lemma_insert_sorted_split(s, x@, i as int);
        }
    } else {
        v.insert(i, x.to_owned());
        proof {
            lemma_insert_sorted_split(s, x@, i as int);
            assert(string_views(v@) =~= s.take(i as int) + seq![x@] + s.skip(i as int)) by {
                assert(forall|j: int| 0 <= j < i ==> #[trigger] s.take(i as int)[j] == s[j]);
                assert(forall|j: int|
                    0 <= j < s.len() - i ==> #[trigger] s.skip(i as int)[j] == s[j + i]);
                assert(forall|j: int|
                    0 <= j < v@.len() ==> #[trigger] string_views(v@)[j] == v@[j]@);
            }
        }
    }
}

} // verus!
