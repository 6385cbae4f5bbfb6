use vstd::prelude::*;
use crate::strutil::{dec_digits, join_all, join_strings, str_eq, string_views, u64_to_string};
use crate::token::{Token, TokenModel};

verus! {

/// The mathematical value of a cluster: the token models in positional order
/// and the number of lines folded into it.
pub ghost struct ClusterModel {
    pub tokens: Seq<TokenModel>,
    pub num_matched: u64,
}

impl ClusterModel {
    pub open spec fn wf(self) -> bool {
        self.num_matched >= 1 && forall|i: int| 0 <= i < self.tokens.len() ==> self.tokens[i].wf()
    }
}

pub open spec fn token_views(s: Seq<Token>) -> Seq<TokenModel> {
    s.map_values(|t: Token| t@)
}

/// The renderings of a sequence of token models.
pub open spec fn renders(s: Seq<TokenModel>) -> Seq<Seq<char>> {
    s.map_values(|m: TokenModel| m.render())
}

/// The detailed renderings of a sequence of token models.
pub open spec fn detailed_renders(s: Seq<TokenModel>) -> Seq<Seq<char>> {
    s.map_values(|m: TokenModel| m.detailed())
}

/// Number of positions `< i` where the stored token is a non-wildcard equal to
/// the candidate token.
pub open spec fn count_exact_upto(a: Seq<TokenModel>, b: Seq<TokenModel>, i: int) -> int
    decreases i,
{
    if i <= 0 {
        0
    } else {
        count_exact_upto(a, b, i - 1) + if !a[i - 1].is_wildcard() && a[i - 1] == b[i - 1] {
            1int
        } else {
            0int
        }
    }
}

/// Number of positions `< i` where the stored token is a wildcard.
pub open spec fn count_wildcards_upto(a: Seq<TokenModel>, i: int) -> int
    decreases i,
{
    if i <= 0 {
        0
    } else {
        count_wildcards_upto(a, i - 1) + if a[i - 1].is_wildcard() {
            1int
        } else {
            0int
        }
    }
}

/// How one stored token changes when a line's token at the same position is
/// folded into the cluster:
/// - an incoming constant equal to a stored constant changes nothing;
/// - an incoming constant differing from a stored constant turns the position
///   into a wildcard seeded with the stored literal, which then absorbs the
///   incoming literal (so the previously agreed value stays as a sample);
/// - a stored wildcard absorbs an incoming constant;
/// - a stored wildcard absorbs every sample of an incoming wildcard (a
///   pre-tokenized variable position hands its observed value over);
/// - a stored constant ignores an incoming wildcard.
pub open spec fn merge_model(stored: TokenModel, incoming: TokenModel) -> TokenModel {
    match incoming {
        TokenModel::Constant(s) => match stored {
            TokenModel::Constant(t) => if t == s {
                stored
            } else {
                TokenModel::Wildcard(seq![t]).absorb(s)
            },
            TokenModel::Wildcard(_) => stored.absorb(s),
        },
        TokenModel::Wildcard(xs) => match stored {
            TokenModel::Constant(_) => stored,
            TokenModel::Wildcard(_) => absorb_all_upto(stored, xs, xs.len() as int),
        },
    }
}

/// `m` after absorbing the first `i` strings of `xs` in order.
pub open spec fn absorb_all_upto(m: TokenModel, xs: Seq<Seq<char>>, i: int) -> TokenModel
    decreases i,
{
    if i <= 0 {
        m
    } else {
        absorb_all_upto(m, xs, i - 1).absorb(xs[i - 1])
    }
}

/// The variable values of `cand` at the positions where `stored` is a
/// wildcard, in positional order.
pub open spec fn extract_upto(stored: Seq<TokenModel>, cand: Seq<TokenModel>, i: int) -> Seq<
    Seq<char>,
>
    decreases i,
{
    if i <= 0 {
        Seq::<Seq<char>>::empty()
    } else {
        extract_upto(stored, cand, i - 1) + if stored[i - 1].is_wildcard() {
            seq![cand[i - 1].render()]
        } else {
            Seq::<Seq<char>>::empty()
        }
    }
}

/// How similar a candidate token sequence is to a cluster: `exact_matched`
/// out of `token_count` positions agree on a constant, and
/// `approximate_similarity` positions are already wildcards. The exact
/// similarity is the fraction `exact_matched / token_count`.
#[derive(PartialEq, Eq, Structural, Clone, Copy, Debug)]
pub struct GroupSimilarity {
    pub exact_matched: usize,
    pub token_count: usize,
    pub approximate_similarity: usize,
}

impl GroupSimilarity {
    /// Strictly better: larger exact fraction, or an equal fraction and more
    /// wildcard positions.
    pub open spec fn spec_gt(self, other: GroupSimilarity) -> bool {
        self.exact_matched * other.token_count > other.exact_matched * self.token_count || (
        self.exact_matched * other.token_count == other.exact_matched * self.token_count
            && self.approximate_similarity > other.approximate_similarity)
    }

    /// The exact fraction reaches the threshold `num / den`.
    pub open spec fn spec_meets(self, num: u64, den: u64) -> bool {
        self.exact_matched * den >= num * self.token_count
    }

    pub fn is_better_than(&self, other: &GroupSimilarity) -> (r: bool)
        ensures
            r == self.spec_gt(*other),
    {
        proof {
            lemma_u128_mul_fits(self.exact_matched as u128, other.token_count as u128);
            lemma_u128_mul_fits(other.exact_matched as u128, self.token_count as u128);
        }
        let a = (self.exact_matched as u128) * (other.token_count as u128);
        let b = (other.exact_matched as u128) * (self.token_count as u128);
        a > b || (a == b && self.approximate_similarity > other.approximate_similarity)
    }

    pub fn meets_threshold(&self, num: u64, den: u64) -> (r: bool)
        ensures
            r == self.spec_meets(num, den),
    {
        proof {
            lemma_u128_mul_fits(self.exact_matched as u128, den as u128);
            lemma_u128_mul_fits(num as u128, self.token_count as u128);
        }
        (self.exact_matched as u128) * (den as u128) >= (num as u128) * (self.token_count as u128)
    }
}

/// Absorbing any number of samples keeps a well-formed wildcard a wildcard
/// and never drops a sample it already had.
pub proof fn lemma_absorb_all_monotone(m: TokenModel, xs: Seq<Seq<char>>, i: int)
    requires
        m.wf(),
        m is Wildcard,
        0 <= i,
    ensures
        absorb_all_upto(m, xs, i) is Wildcard,
        absorb_all_upto(m, xs, i).wf(),
        forall|e: Seq<char>|
            m.samples().contains(e) ==> absorb_all_upto(m, xs, i).samples().contains(e),
    decreases i,
{
    if i > 0 {
        lemma_absorb_all_monotone(m, xs, i - 1);
        crate::token::lemma_absorb_monotone(absorb_all_upto(m, xs, i - 1), xs[i - 1]);
    }
}

/// Monotonicity of folding a line into a cluster, position by position: a
/// wildcard position stays a wildcard and keeps every sample it had, and a
/// constant position never changes its literal — it either stays as it is or
/// becomes a wildcard.
pub proof fn lemma_merge_monotone(stored: TokenModel, incoming: TokenModel)
    requires
        stored.wf(),
    ensures
        stored is Wildcard ==> merge_model(stored, incoming) is Wildcard,
        stored is Wildcard ==> forall|e: Seq<char>|
            stored.samples().contains(e) ==> merge_model(stored, incoming).samples().contains(e),
        stored is Constant ==> (merge_model(stored, incoming) == stored || merge_model(
            stored,
            incoming,
        ) is Wildcard),
        merge_model(stored, incoming).wf(),
{
    match incoming {
        TokenModel::Constant(s) => match stored {
            TokenModel::Constant(t) => {
                if t != s {
                    crate::token::lemma_sample_cap(TokenModel::Wildcard(seq![t]), s);
                }
            },
            TokenModel::Wildcard(_) => {
                crate::token::lemma_absorb_monotone(stored, s);
            },
        },
        TokenModel::Wildcard(xs) => {
            if stored is Wildcard {
                lemma_absorb_all_monotone(stored, xs, xs.len() as int);
            }
        },
    }
}

/// The product of two factors below `2^64` fits in a `u128`.
proof fn lemma_u128_mul_fits(a: u128, b: u128)
    requires
        a < 0x1_0000_0000_0000_0000,
        b < 0x1_0000_0000_0000_0000,
    ensures
        (a as int) * (b as int) <= u128::MAX as int,
{
    assert((a as int) * (b as int) <= u128::MAX as int) by (nonlinear_arith)
        requires
            0 <= a < 0x1_0000_0000_0000_0000,
            0 <= b < 0x1_0000_0000_0000_0000,
    ;
}

/// The similarity of a candidate to a cluster, as a value.
pub open spec fn sim_of(c: ClusterModel, cand: Seq<TokenModel>) -> GroupSimilarity {
    GroupSimilarity {
        exact_matched: count_exact_upto(c.tokens, cand, c.tokens.len() as int) as usize,
        token_count: c.tokens.len() as usize,
        approximate_similarity: count_wildcards_upto(c.tokens, c.tokens.len() as int) as usize,
    }
}

/// The cluster after folding in a candidate line of its own length: each
/// position merged by `merge_model`, the counter raised by one (saturating).
pub open spec fn add_log_model(c: ClusterModel, cand: Seq<TokenModel>) -> ClusterModel {
    ClusterModel {
        tokens: Seq::new(c.tokens.len(), |i: int| merge_model(c.tokens[i], cand[i])),
        num_matched: if c.num_matched < u64::MAX {
            (c.num_matched + 1) as u64
        } else {
            c.num_matched
        },
    }
}

/// Decides whether two tokens carry the same value: same variant, and the same
/// literal or the same sample set.
pub fn token_eq(a: &Token, b: &Token) -> (r: bool)
    ensures
        r == (a@ == b@),
{
    match (a, b) {
        (Token::Val(x), Token::Val(y)) => str_eq(x.as_str(), y.as_str()),
        (Token::WildCard(u), Token::WildCard(v)) => {
            proof {
                assert(a@ == TokenModel::Wildcard(string_views(u@)));
                assert(b@ == TokenModel::Wildcard(string_views(v@)));
            }
            if u.len() != v.len() {
                proof {
                    assert(string_views(u@).len() != string_views(v@).len());
                }
                return false;
            }
            let mut i: usize = 0;
            while i < u.len()
                invariant
                    i <= u@.len(),
                    u@.len() == v@.len(),
                    a@ == TokenModel::Wildcard(string_views(u@)),
                    b@ == TokenModel::Wildcard(string_views(v@)),
                    forall|j: int| 0 <= j < i ==> u@[j]@ == v@[j]@,
                decreases u@.len() - i,
            {
                if !str_eq(u[i].as_str(), v[i].as_str()) {
                    proof {
                        assert(string_views(u@)[i as int] != string_views(v@)[i as int]);
                    }
                    return false;
                }
                i = i + 1;
            }
            proof {
                assert(string_views(u@) =~= string_views(v@));
            }
            true
        },
        (Token::Val(_), Token::WildCard(_)) => false,
        (Token::WildCard(_), Token::Val(_)) => false,
    }
}

/// A discovered message template: an ordered sequence of tokens plus the count
/// of lines that have been folded into it.
pub struct LogCluster {
    log_tokens: Vec<Token>,
    num_matched: u64,
}

impl View for LogCluster {
    type V = ClusterModel;

    closed spec fn view(&self) -> ClusterModel {
        ClusterModel { tokens: token_views(self.log_tokens@), num_matched: self.num_matched }
    }
}

impl LogCluster {
    pub open spec fn wf(&self) -> bool {
        self@.wf()
    }

    /// A fresh cluster holding the given tokens, with one line matched.
    pub fn new(log_tokens: Vec<Token>) -> (r: LogCluster)
        ensures
            r@.tokens == token_views(log_tokens@),
            r@.num_matched == 1,
            (forall|i: int| 0 <= i < log_tokens@.len() ==> log_tokens@[i].wf()) ==> r.wf(),
    {
        let r = LogCluster { log_tokens, num_matched: 1 };
        proof {
            assert(forall|i: int|
                0 <= i < r.log_tokens@.len() ==> token_views(r.log_tokens@)[i]
                    == r.log_tokens@[i]@);
        }
        r
    }

    /// How many lines have been folded into this cluster.
    pub fn num_matched(&self) -> (r: u64)
        ensures
            r == self@.num_matched,
    {
        self.num_matched
    }

    pub fn token_count(&self) -> (r: usize)
        ensures
            r == self@.tokens.len(),
    {
        self.log_tokens.len()
    }

    /// A structural copy.
    pub fn duplicate(&self) -> (r: LogCluster)
        ensures
            r@ == self@,
    {
        let mut out: Vec<Token> = Vec::new();
        let mut i: usize = 0;
        while i < self.log_tokens.len()
            invariant
                i <= self.log_tokens@.len(),
                out@.len() == i,
                forall|j: int| 0 <= j < i ==> out@[j]@ == self.log_tokens@[j]@,
            decreases self.log_tokens@.len() - i,
        {
            out.push(self.log_tokens[i].duplicate());
            i = i + 1;
        }
        let r = LogCluster { log_tokens: out, num_matched: self.num_matched };
        proof {
            assert(token_views(r.log_tokens@) =~= token_views(self.log_tokens@));
        }
        r
    }

    /// The space-joined compact rendering of the template.
    pub fn as_string(&self) -> (r: String)
        ensures
            r@ == join_all(renders(self@.tokens), " "@),
    {
        let mut parts: Vec<String> = Vec::new();
        let mut i: usize = 0;
        while i < self.log_tokens.len()
            invariant
                i <= self.log_tokens@.len(),
                parts@.len() == i,
                forall|j: int| 0 <= j < i ==> parts@[j]@ == self.log_tokens@[j]@.render(),
            decreases self.log_tokens@.len() - i,
        {
            parts.push(self.log_tokens[i].as_string());
            i = i + 1;
        }
        proof {
            assert(string_views(parts@) =~= renders(token_views(self.log_tokens@)));
        }
        join_strings(&parts, " ")
    }

    /// The space-joined detailed rendering of the template.
    pub fn as_detailed_string(&self) -> (r: String)
        ensures
            r@ == join_all(detailed_renders(self@.tokens), " "@),
    {
        let mut parts: Vec<String> = Vec::new();
        let mut i: usize = 0;
        while i < self.log_tokens.len()
            invariant
                i <= self.log_tokens@.len(),
                parts@.len() == i,
                forall|j: int| 0 <= j < i ==> parts@[j]@ == self.log_tokens@[j]@.detailed(),
            decreases self.log_tokens@.len() - i,
        {
            parts.push(self.log_tokens[i].as_detailed_string());
            i = i + 1;
        }
        proof {
            assert(string_views(parts@) =~= detailed_renders(token_views(self.log_tokens@)));
        }
        join_strings(&parts, " ")
    }

    /// The wire rendering of the template: the space-joined tokens followed
    /// by `, count [<num_matched>] `.
    pub fn as_string_with_count(&self) -> (r: String)
        ensures
            r@ == join_all(renders(self@.tokens), " "@) + ", count ["@ + dec_digits(
                self@.num_matched as nat,
            ) + "] "@,
    {
        let mut r = self.as_string();
        vstd::string::StringExecFns::append(&mut r, ", count [");
        let count = u64_to_string(self.num_matched);
        vstd::string::StringExecFns::append(&mut r, count.as_str());
        vstd::string::StringExecFns::append(&mut r, "] ");
        proof {
            assert(r@ =~= join_all(renders(self@.tokens), " "@) + ", count ["@ + dec_digits(
                self@.num_matched as nat,
            ) + "] "@);
        }
        r
    }

    /// Scores a candidate of the same length against this cluster.
    pub fn similarity(&self, log: &Vec<Token>) -> (r: GroupSimilarity)
        requires
            log@.len() == self@.tokens.len(),
        ensures
            r.token_count == self@.tokens.len(),
            r.exact_matched == count_exact_upto(
                self@.tokens,
                token_views(log@),
                self@.tokens.len() as int,
            ),
            r.approximate_similarity == count_wildcards_upto(
                self@.tokens,
                self@.tokens.len() as int,
            ),
            r.exact_matched <= r.token_count,
            r.approximate_similarity <= r.token_count,
            r == sim_of(self@, token_views(log@)),
    {
        let n = self.log_tokens.len();
        let mut exact: usize = 0;
        let mut approx: usize = 0;
        let mut i: usize = 0;
        while i < n
            invariant
                i <= n,
                n == self@.tokens.len(),
                log@.len() == n,
                exact <= i,
                approx <= i,
                exact == count_exact_upto(self@.tokens, token_views(log@), i as int),
                approx == count_wildcards_upto(self@.tokens, i as int),
            decreases n - i,
        {
            proof {
                assert(token_views(self.log_tokens@)[i as int] == self.log_tokens@[i as int]@);
                assert(token_views(log@)[i as int] == log@[i as int]@);
            }
            if self.log_tokens[i].is_wildcard() {
                approx = approx + 1;
            } else if token_eq(&self.log_tokens[i], &log[i]) {
                exact = exact + 1;
            }
            i = i + 1;
        }
        GroupSimilarity { exact_matched: exact, token_count: n, approximate_similarity: approx }
    }

    /// Folds a line of the same length into the cluster, widening conflicting
    /// positions into wildcards and counting the match (the counter saturates
    /// at the largest representable value).
    pub fn add_log(&mut self, new_log: &Vec<Token>)
        requires
            old(self).wf(),
            new_log@.len() == old(self)@.tokens.len(),
        ensures
            final(self)@.tokens.len() == old(self)@.tokens.len(),
            forall|i: int|
                0 <= i < old(self)@.tokens.len() ==> final(self)@.tokens[i] == merge_model(
                    old(self)@.tokens[i],
                    token_views(new_log@)[i],
                ),
            final(self)@.num_matched == if old(self)@.num_matched < u64::MAX {
                (old(self)@.num_matched + 1) as u64
            } else {
                old(self)@.num_matched
            },
            final(self)@.num_matched >= old(self)@.num_matched,
            final(self)@ == add_log_model(old(self)@, token_views(new_log@)),
            final(self).wf(),
    {
        let n = self.log_tokens.len();
        let mut merged: Vec<Token> = Vec::new();
        let mut i: usize = 0;
        while i < n
            invariant
                i <= n,
                n == self.log_tokens@.len(),
                new_log@.len() == n,
                self == old(self),
                old(self).wf(),
                merged@.len() == i,
                forall|j: int|
                    0 <= j < i ==> merged@[j]@ == merge_model(
                        self.log_tokens@[j]@,
                        new_log@[j]@,
                    ),
                forall|j: int| 0 <= j < i ==> merged@[j].wf(),
            decreases n - i,
        {
            proof {
                assert(token_views(self.log_tokens@)[i as int] == self.log_tokens@[i as int]@);
                assert(self@.tokens[i as int] == self.log_tokens@[i as int]@);
                assert(self@.tokens[i as int].wf());
            }
            merged.push(merge_one(&self.log_tokens[i], &new_log[i]));
            i = i + 1;
        }
        self.log_tokens = merged;
        if self.num_matched < u64::MAX {
            self.num_matched = self.num_matched + 1;
        }
        proof {
            assert(forall|j: int|
                0 <= j < n ==> #[trigger] token_views(self.log_tokens@)[j]
                    == self.log_tokens@[j]@);
            assert(forall|j: int|
                0 <= j < n ==> #[trigger] token_views(new_log@)[j] == new_log@[j]@);
            assert(final(self)@.tokens =~= add_log_model(old(self)@, token_views(new_log@)).tokens);
        }
    }

    /// The candidate's values at the cluster's wildcard positions.
    pub fn extract_variables(&self, log: &Vec<Token>) -> (r: Vec<String>)
        requires
            log@.len() == self@.tokens.len(),
        ensures
            string_views(r@) == extract_upto(
                self@.tokens,
                token_views(log@),
                self@.tokens.len() as int,
            ),
    {
        let n = self.log_tokens.len();
        let mut out: Vec<String> = Vec::new();
        let mut i: usize = 0;
        while i < n
            invariant
                i <= n,
                n == self@.tokens.len(),
                log@.len() == n,
                string_views(out@) == extract_upto(self@.tokens, token_views(log@), i as int),
            decreases n - i,
        {
            proof {
                assert(token_views(self.log_tokens@)[i as int] == self.log_tokens@[i as int]@);
                assert(token_views(log@)[i as int] == log@[i as int]@);
            }
            if self.log_tokens[i].is_wildcard() {
                let ghost before = string_views(out@);
                out.push(log[i].as_string());
                proof {
                    assert(string_views(out@) =~= before + seq![log@[i as int]@.render()]);
                }
            } else {
                proof {
                    assert(string_views(out@) =~= string_views(out@)
                        + Seq::<Seq<char>>::empty());
                }
            }
            i = i + 1;
        }
        out
    }
}

/// The merged token for one position, per `merge_model`.
fn merge_one(stored: &Token, incoming: &Token) -> (r: Token)
    requires
        stored.wf(),
    ensures
        r@ == merge_model(stored@, incoming@),
        r.wf(),
{
    match incoming {
        Token::Val(s) => match stored {
            Token::Val(t) => {
                if str_eq(t.as_str(), s.as_str()) {
                    stored.duplicate()
                } else {
                    let mut w = Token::new_wildcard(t.clone());
                    w.absorb_str(s.as_str());
                    w
                }
            },
            Token::WildCard(_) => {
                let mut w = stored.duplicate();
                w.absorb_str(s.as_str());
                w
            },
        },
        Token::WildCard(xs) => match stored {
            Token::Val(_) => stored.duplicate(),
            Token::WildCard(_) => {
                let mut w = stored.duplicate();
                let mut i: usize = 0;
                while i < xs.len()
                    invariant
                        i <= xs@.len(),
                        stored.wf(),
                        stored@ is Wildcard,
                        w@ == absorb_all_upto(stored@, string_views(xs@), i as int),
                        w.wf(),
                    decreases xs@.len() - i,
                {
                    proof {
                        assert(string_views(xs@)[i as int] == xs@[i as int]@);
                    }
                    w.absorb_str(xs[i].as_str());
                    i = i + 1;
                }
                w
            },
        },
    }
}

} // verus!
