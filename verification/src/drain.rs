use vstd::prelude::*;
use crate::log_cluster::{
    add_log_model, sim_of, token_views, ClusterModel, GroupSimilarity, LogCluster,
};
use crate::strutil::str_eq;
use crate::token::{Token, TokenModel};

verus! {

/// The routing key that collects everything a saturated or variable position
/// can produce.
pub open spec fn wc_key() -> Seq<char> {
    "<*>"@
}

/// One child of an internal node, reached under `key`.
pub struct ChildEntry {
    pub key: String,
    pub node: Node,
}

/// A node of the Drain tree: internal nodes route by token key, leaves hold
/// the clusters of one length bucket.
pub enum Node {
    Internal(Vec<ChildEntry>),
    Leaf(Vec<LogCluster>),
}

/// One length bucket under the root.
pub struct LengthEntry {
    pub length: usize,
    pub node: Node,
}

/// Number of children among the first `i` whose key is not the wildcard key.
pub open spec fn count_non_wc_upto(ch: Seq<ChildEntry>, i: int) -> int
    decreases i,
{
    if i <= 0 {
        0
    } else {
        count_non_wc_upto(ch, i - 1) + if ch[i - 1].key@ == wc_key() {
            0int
        } else {
            1int
        }
    }
}

pub open spec fn count_non_wc(ch: Seq<ChildEntry>) -> int {
    count_non_wc_upto(ch, ch.len() as int)
}

/// Well-formedness of a node `rem` levels above its leaves, for lines of
/// `length` tokens, under the fan-out cap `maxc`:
/// - every leaf holds only well-formed clusters of exactly `length` tokens;
/// - every internal node has pairwise distinct keys, at most `maxc` children
///   besides the wildcard child, and at most `maxc + 1` children in all.
pub open spec fn node_wf(n: Node, rem: nat, length: nat, maxc: nat) -> bool
    decreases rem, 1int, 0int,
{
    match n {
        Node::Leaf(cs) => rem == 0 && forall|i: int|
            0 <= i < cs@.len() ==> (#[trigger] cs@[i]@).wf() && cs@[i]@.tokens.len() == length,
        Node::Internal(ch) => rem > 0 && ch@.len() <= maxc + 1 && count_non_wc(ch@) <= maxc as int
            && (forall|i: int, j: int|
            0 <= i < j < ch@.len() ==> ch@[i].key@ != ch@[j].key@) && children_wf(
            ch@,
            ch@.len() as int,
            rem,
            length,
            maxc,
        ),
    }
}

/// The first `i` children are all well-formed one level down.
pub open spec fn children_wf(ch: Seq<ChildEntry>, i: int, rem: nat, length: nat, maxc: nat) -> bool
    decreases rem, 0int, i,
{
    if i <= 0 {
        true
    } else if rem == 0 {
        false
    } else {
        children_wf(ch, i - 1, rem, length, maxc) && node_wf(
            ch[i - 1].node,
            (rem - 1) as nat,
            length,
            maxc,
        )
    }
}

proof fn lemma_children_wf_index(ch: Seq<ChildEntry>, i: int, rem: nat, length: nat, maxc: nat, k: int)
    requires
        children_wf(ch, i, rem, length, maxc),
        0 <= k < i,
    ensures
        rem > 0,
        node_wf(ch[k].node, (rem - 1) as nat, length, maxc),
    decreases i,
{
    if k < i - 1 {
        lemma_children_wf_index(ch, i - 1, rem, length, maxc, k);
    }
}

/// `children_wf` looks only at the first `i` entries.
proof fn lemma_children_wf_congruent(
    ch: Seq<ChildEntry>,
    ch2: Seq<ChildEntry>,
    i: int,
    rem: nat,
    length: nat,
    maxc: nat,
)
    requires
        forall|j: int| 0 <= j < i ==> ch[j].node == ch2[j].node,
    ensures
        children_wf(ch, i, rem, length, maxc) == children_wf(ch2, i, rem, length, maxc),
    decreases i,
{
    if i > 0 {
        lemma_children_wf_congruent(ch, ch2, i - 1, rem, length, maxc);
    }
}

proof fn lemma_children_wf_update(
    ch: Seq<ChildEntry>,
    i: int,
    rem: nat,
    length: nat,
    maxc: nat,
    k: int,
    e: ChildEntry,
)
    requires
        children_wf(ch, i, rem, length, maxc),
        0 <= i <= ch.len(),
        0 <= k < ch.len(),
        rem > 0,
        node_wf(e.node, (rem - 1) as nat, length, maxc),
    ensures
        children_wf(ch.update(k, e), i, rem, length, maxc),
    decreases i,
{
    if i > 0 {
        lemma_children_wf_update(ch, i - 1, rem, length, maxc, k, e);
        if k == i - 1 {
            assert(ch.update(k, e)[i - 1].node == e.node);
        } else {
            assert(ch.update(k, e)[i - 1].node == ch[i - 1].node);
        }
    }
}

/// `count_non_wc_upto` looks only at the first `i` keys.
proof fn lemma_count_congruent(ch: Seq<ChildEntry>, ch2: Seq<ChildEntry>, i: int)
    requires
        forall|j: int| 0 <= j < i ==> ch[j].key@ == ch2[j].key@,
    ensures
        count_non_wc_upto(ch, i) == count_non_wc_upto(ch2, i),
    decreases i,
{
    if i > 0 {
        lemma_count_congruent(ch, ch2, i - 1);
    }
}

proof fn lemma_count_le_len(ch: Seq<ChildEntry>, i: int)
    requires
        0 <= i,
    ensures
        count_non_wc_upto(ch, i) <= i,
    decreases i,
{
    if i > 0 {
        lemma_count_le_len(ch, i - 1);
    }
}

/// If no key among the first `i` is the wildcard key, all count.
proof fn lemma_count_all_non_wc(ch: Seq<ChildEntry>, i: int)
    requires
        0 <= i,
        forall|j: int| 0 <= j < i ==> ch[j].key@ != wc_key(),
    ensures
        count_non_wc_upto(ch, i) == i,
    decreases i,
{
    if i > 0 {
        lemma_count_all_non_wc(ch, i - 1);
    }
}

/// An empty node: an empty leaf at the bottom, an internal node with no
/// children above it.
fn make_empty(rem: usize) -> (r: Node)
    ensures
        forall|length: nat, maxc: nat| node_wf(r, rem as nat, length, maxc),
        node_cluster_models(r, rem as nat) == Seq::<ClusterModel>::empty(),
{
    if rem == 0 {
        let cs: Vec<LogCluster> = Vec::new();
        proof {
            assert(node_cluster_models(Node::Leaf(cs), rem as nat) =~= Seq::<
                ClusterModel,
            >::empty());
        }
        Node::Leaf(cs)
    } else {
        let ch: Vec<ChildEntry> = Vec::new();
        let r = Node::Internal(ch);
        proof {
            assert forall|length: nat, maxc: nat| node_wf(r, rem as nat, length, maxc) by {
                assert(count_non_wc_upto(r->Internal_0@, 0) == 0);
                assert(children_wf(r->Internal_0@, 0, rem as nat, length, maxc));
            }
        }
        r
    }
}

/// The index of the child reached under `key`, if there is one.
fn find_child(ch: &Vec<ChildEntry>, key: &str) -> (r: Option<usize>)
    ensures
        match r {
            Option::Some(i) => i < ch@.len() && ch@[i as int].key@ == key@,
            Option::None => forall|j: int| 0 <= j < ch@.len() ==> ch@[j].key@ != key@,
        },
{
    let mut i: usize = 0;
    while i < ch.len()
        invariant
            i <= ch@.len(),
            forall|j: int| 0 <= j < i ==> ch@[j].key@ != key@,
        decreases ch@.len() - i,
    {
        if str_eq(ch[i].key.as_str(), key) {
            return Option::Some(i);
        }
        i = i + 1;
    }
    Option::None
}

/// The routing key of a line at one level: the literal of a constant token,
/// the wildcard key for a variable position or past the end of the line.
pub open spec fn spec_key_at(tokens: Seq<TokenModel>, level: int) -> Seq<char> {
    if 0 <= level < tokens.len() && tokens[level] is Constant {
        tokens[level]->Constant_0
    } else {
        wc_key()
    }
}

fn key_at(tokens: &Vec<Token>, level: usize) -> (r: String)
    ensures
        r@ == spec_key_at(crate::log_cluster::token_views(tokens@), level as int),
{
    proof {
        if (level as int) < tokens@.len() {
            assert(crate::log_cluster::token_views(tokens@)[level as int]
                == tokens@[level as int]@);
        }
    }
    if level < tokens.len() {
        match &tokens[level] {
            Token::Val(s) => s.clone(),
            Token::WildCard(_) => "<*>".to_owned(),
        }
    } else {
        "<*>".to_owned()
    }
}

/// The cluster values stored under a node, leaves in child order, clusters in
/// list order.
pub open spec fn node_cluster_models(n: Node, rem: nat) -> Seq<ClusterModel>
    decreases rem, 1int, 0int,
{
    match n {
        Node::Leaf(cs) => cs@.map_values(|c: LogCluster| c@),
        Node::Internal(ch) => if rem == 0 {
            Seq::<ClusterModel>::empty()
        } else {
            children_cluster_models(ch@, ch@.len() as int, rem)
        },
    }
}

/// The cluster values stored under the first `i` children.
pub open spec fn children_cluster_models(ch: Seq<ChildEntry>, i: int, rem: nat) -> Seq<
    ClusterModel,
>
    decreases rem, 0int, i,
{
    if i <= 0 || rem == 0 {
        Seq::<ClusterModel>::empty()
    } else {
        children_cluster_models(ch, i - 1, rem) + node_cluster_models(
            ch[i - 1].node,
            (rem - 1) as nat,
        )
    }
}

/// The cluster values stored under the first `i` length buckets.
pub open spec fn root_cluster_models(root: Seq<LengthEntry>, i: int, rem: nat) -> Seq<ClusterModel>
    decreases i,
{
    if i <= 0 {
        Seq::<ClusterModel>::empty()
    } else {
        root_cluster_models(root, i - 1, rem) + node_cluster_models(root[i - 1].node, rem)
    }
}

/// The cluster values of a list of clusters.
pub open spec fn cluster_models_of(s: Seq<LogCluster>) -> Seq<ClusterModel> {
    s.map_values(|c: LogCluster| c@)
}

proof fn lemma_children_models_member(
    ch: Seq<ChildEntry>,
    i: int,
    rem: nat,
    k: int,
    c: ClusterModel,
)
    requires
        0 <= k < i,
        rem > 0,
        node_cluster_models(ch[k].node, (rem - 1) as nat).contains(c),
    ensures
        children_cluster_models(ch, i, rem).contains(c),
    decreases i,
{
    let prefix = children_cluster_models(ch, i - 1, rem);
    let last = node_cluster_models(ch[i - 1].node, (rem - 1) as nat);
    if k == i - 1 {
        let j = choose|j: int| 0 <= j < last.len() && last[j] == c;
        assert((prefix + last)[prefix.len() + j] == c);
    } else {
        lemma_children_models_member(ch, i - 1, rem, k, c);
        let j = choose|j: int| 0 <= j < prefix.len() && prefix[j] == c;
        assert((prefix + last)[j] == c);
    }
}

/// A cluster among the first `i` children sits under one of them.
proof fn lemma_children_models_decompose(ch: Seq<ChildEntry>, i: int, rem: nat, m: ClusterModel)
    requires
        rem > 0,
        children_cluster_models(ch, i, rem).contains(m),
    ensures
        exists|k: int|
            0 <= k < i && node_cluster_models((#[trigger] ch[k]).node, (rem - 1) as nat).contains(
                m,
            ),
    decreases i,
{
    if i > 0 {
        let prefix = children_cluster_models(ch, i - 1, rem);
        let last = node_cluster_models(ch[i - 1].node, (rem - 1) as nat);
        let j = choose|j: int| 0 <= j < (prefix + last).len() && (prefix + last)[j] == m;
        if j < prefix.len() {
            assert(prefix[j] == m);
            lemma_children_models_decompose(ch, i - 1, rem, m);
        } else {
            assert(last[j - prefix.len()] == m);
        }
    }
}

/// A cluster among the first `i` buckets sits under one of them.
proof fn lemma_root_models_decompose(root: Seq<LengthEntry>, i: int, rem: nat, m: ClusterModel)
    requires
        root_cluster_models(root, i, rem).contains(m),
    ensures
        exists|k: int|
            0 <= k < i && node_cluster_models((#[trigger] root[k]).node, rem).contains(m),
    decreases i,
{
    if i > 0 {
        let prefix = root_cluster_models(root, i - 1, rem);
        let last = node_cluster_models(root[i - 1].node, rem);
        let j = choose|j: int| 0 <= j < (prefix + last).len() && (prefix + last)[j] == m;
        if j < prefix.len() {
            assert(prefix[j] == m);
            lemma_root_models_decompose(root, i - 1, rem, m);
        } else {
            assert(last[j - prefix.len()] == m);
        }
    }
}

proof fn lemma_root_models_member(
    root: Seq<LengthEntry>,
    i: int,
    rem: nat,
    k: int,
    c: ClusterModel,
)
    requires
        0 <= k < i,
        node_cluster_models(root[k].node, rem).contains(c),
    ensures
        root_cluster_models(root, i, rem).contains(c),
    decreases i,
{
    let prefix = root_cluster_models(root, i - 1, rem);
    let last = node_cluster_models(root[i - 1].node, rem);
    if k == i - 1 {
        let j = choose|j: int| 0 <= j < last.len() && last[j] == c;
        assert((prefix + last)[prefix.len() + j] == c);
    } else {
        lemma_root_models_member(root, i - 1, rem, k, c);
        let j = choose|j: int| 0 <= j < prefix.len() && prefix[j] == c;
        assert((prefix + last)[j] == c);
    }
}

/// What a token contributes to a fresh cluster: constants as they are, any
/// variable position as a wildcard that has not observed a value yet.
pub open spec fn fresh_model(m: TokenModel) -> TokenModel {
    match m {
        TokenModel::Constant(_) => m,
        TokenModel::Wildcard(_) => TokenModel::Wildcard(Seq::<Seq<char>>::empty()),
    }
}

fn fresh_tokens(tokens: &Vec<Token>) -> (r: Vec<Token>)
    ensures
        r@.len() == tokens@.len(),
        forall|i: int|
            0 <= i < tokens@.len() ==> (#[trigger] r@[i])@ == fresh_model(tokens@[i]@),
        forall|i: int| 0 <= i < tokens@.len() ==> (#[trigger] r@[i]).wf(),
{
    let mut out: Vec<Token> = Vec::new();
    let mut i: usize = 0;
    while i < tokens.len()
        invariant
            i <= tokens@.len(),
            out@.len() == i,
            forall|j: int| 0 <= j < i ==> (#[trigger] out@[j])@ == fresh_model(tokens@[j]@),
            forall|j: int| 0 <= j < i ==> (#[trigger] out@[j]).wf(),
        decreases tokens@.len() - i,
    {
        match &tokens[i] {
            Token::Val(s) => out.push(Token::Val(s.clone())),
            Token::WildCard(_) => out.push(Token::new_empty_wildcard()),
        }
        i = i + 1;
    }
    out
}

/// The cluster opened for a line no existing cluster was similar enough to:
/// the line's tokens (variable positions as empty wildcards), one line
/// matched.
pub open spec fn fresh_cluster_model(cand: Seq<TokenModel>) -> ClusterModel {
    ClusterModel { tokens: Seq::new(cand.len(), |i: int| fresh_model(cand[i])), num_matched: 1 }
}

/// `k` is the index the leaf match selects: no cluster scores strictly better,
/// and it strictly beats every earlier cluster (the first of the best).
pub open spec fn is_first_best(cs: Seq<LogCluster>, cand: Seq<TokenModel>, k: int) -> bool {
    &&& 0 <= k < cs.len()
    &&& forall|j: int|
        0 <= j < cs.len() ==> !sim_of((#[trigger] cs[j])@, cand).spec_gt(sim_of(cs[k]@, cand))
    &&& forall|j: int| 0 <= j < k ==> sim_of(cs[k]@, cand).spec_gt(sim_of((#[trigger] cs[j])@, cand))
}

/// Well-formedness of a leaf's cluster list for lines of `length` tokens.
pub open spec fn leaf_wf(cs: Seq<LogCluster>, length: nat) -> bool {
    forall|i: int| 0 <= i < cs.len() ==> (#[trigger] cs[i]@).wf() && cs[i]@.tokens.len() == length
}

/// Picks the best-scoring cluster for the line, folds the line into it when it
/// reaches the acceptance threshold `num / den` and moves it to the front of
/// the list; otherwise creates a new cluster at the front. Returns a copy of
/// the matched or created cluster.
fn leaf_match_or_create(cs: &mut Vec<LogCluster>, tokens: &Vec<Token>, num: u64, den: u64) -> (r:
    LogCluster)
    requires
        leaf_wf(old(cs)@, tokens@.len() as nat),
        forall|i: int| 0 <= i < tokens@.len() ==> (#[trigger] tokens@[i]).wf(),
        tokens@.len() >= 1,
    ensures
        leaf_wf(final(cs)@, tokens@.len() as nat),
        old(cs)@.len() <= final(cs)@.len() <= old(cs)@.len() + 1,
        r@.wf(),
        r@.tokens.len() == tokens@.len(),
        ({
            let cand = token_views(tokens@);
            ||| (final(cs)@.len() == old(cs)@.len() + 1 && r@ == fresh_cluster_model(cand)
                && final(cs)@[0]@ == r@ && (forall|j: int|
                1 <= j < final(cs)@.len() ==> final(cs)@[j] == old(cs)@[j - 1]) && (forall|k: int|
                0 <= k < old(cs)@.len() ==> !sim_of((#[trigger] old(cs)@[k])@, cand).spec_meets(
                    num,
                    den,
                )))
            ||| (exists|k: int|
                #![auto]
                is_first_best(old(cs)@, cand, k) && sim_of(old(cs)@[k]@, cand).spec_meets(num, den)
                    && r@ == add_log_model(old(cs)@[k]@, cand) && final(cs)@.len()
                    == old(cs)@.len() && final(cs)@[0]@ == r@ && (forall|j: int|
                    1 <= j < final(cs)@.len() ==> final(cs)@[j] == old(cs)@.remove(k)[j - 1]))
        }),
{
    let ghost cand = token_views(tokens@);
    if cs.len() > 0 {
        let mut idx: usize = 0;
        proof {
            assert(cs@[0]@.wf() && cs@[0]@.tokens.len() == tokens@.len());
        }
        let mut best: GroupSimilarity = cs[0].similarity(tokens);
        let mut i: usize = 1;
        while i < cs.len()
            invariant
                1 <= i <= cs@.len(),
                idx < i,
                cs@ == old(cs)@,
                cand == token_views(tokens@),
                tokens@.len() >= 1,
                leaf_wf(cs@, tokens@.len() as nat),
                best == sim_of(cs@[idx as int]@, cand),
                forall|j: int| 0 <= j < i ==> !sim_of((#[trigger] cs@[j])@, cand).spec_gt(best),
                forall|j: int| 0 <= j < idx ==> best.spec_gt(sim_of((#[trigger] cs@[j])@, cand)),
            decreases cs@.len() - i,
        {
            proof {
                assert(cs@[i as int]@.wf() && cs@[i as int]@.tokens.len() == tokens@.len());
            }
            let s = cs[i].similarity(tokens);
            if s.is_better_than(&best) {
                best = s;
                idx = i;
            }
            i = i + 1;
        }
        proof {
            assert(is_first_best(cs@, cand, idx as int));
        }
        if best.meets_threshold(num, den) {
            let mut c = cs.remove(idx);
            proof {
                assert(c@.wf() && c@.tokens.len() == tokens@.len());
            }
            c.add_log(tokens);
            let r = c.duplicate();
            cs.insert(0, c);
            proof {
                let s = final(cs)@;
                assert forall|j: int| 0 <= j < s.len() implies (#[trigger] s[j]@).wf()
                    && s[j]@.tokens.len() == tokens@.len() by {
                    if j > 0 {
                        assert(s[j] == old(cs)@.remove(idx as int)[j - 1]);
                    }
                }
                assert(r@ == add_log_model(old(cs)@[idx as int]@, cand));
            }
            return r;
        }
        proof {
            // no cluster reaches the threshold: the selected one has the
            // highest exact count, so every exact fraction falls short
            let n = tokens@.len() as int;
            let bi = idx as int;
            assert forall|k: int| 0 <= k < cs@.len() implies !sim_of(
                (#[trigger] cs@[k])@,
                cand,
            ).spec_meets(num, den) by {
                let sk = sim_of(cs@[k]@, cand);
                assert(!sk.spec_gt(best));
                assert(sk.token_count == n && best.token_count == n);
                assert(sk.exact_matched <= best.exact_matched) by (nonlinear_arith)
                    requires
                        !(sk.exact_matched * best.token_count > best.exact_matched
                            * sk.token_count),
                        sk.token_count == best.token_count,
                        sk.token_count >= 1,
                ;
                assert(sk.exact_matched * den < num * sk.token_count) by (nonlinear_arith)
                    requires
                        sk.exact_matched <= best.exact_matched,
                        sk.token_count == best.token_count,
                        best.exact_matched * den < num * best.token_count,
                ;
            }
        }
    }
    let c = LogCluster::new(fresh_tokens(tokens));
    let r = c.duplicate();
    cs.insert(0, c);
    proof {
        let s = final(cs)@;
        assert forall|j: int| 0 <= j < s.len() implies (#[trigger] s[j]@).wf()
            && s[j]@.tokens.len() == tokens@.len() by {
            if j > 0 {
                assert(s[j] == old(cs)@[j - 1]);
            }
        }
        assert(r@.tokens =~= fresh_cluster_model(cand).tokens);
        assert(r@ == fresh_cluster_model(cand));
    }
    r
}

/// Routes the line through `rem` more internal levels to its leaf, creating
/// children as the fan-out cap allows, and matches or creates a cluster there.
fn node_route(
    node: &mut Node,
    tokens: &Vec<Token>,
    level: usize,
    rem: usize,
    maxc: usize,
    num: u64,
    den: u64,
) -> (r: LogCluster)
    requires
        node_wf(*old(node), rem as nat, tokens@.len() as nat, maxc as nat),
        forall|i: int| 0 <= i < tokens@.len() ==> (#[trigger] tokens@[i]).wf(),
        tokens@.len() >= 1,
        level + rem <= usize::MAX,
    ensures
        node_wf(*final(node), rem as nat, tokens@.len() as nat, maxc as nat),
        r@.wf(),
        r@.tokens.len() == tokens@.len(),
        r@ == fresh_cluster_model(token_views(tokens@)) || exists|m: ClusterModel|
            #![auto]
            m.wf() && m.tokens.len() == tokens@.len() && r@ == add_log_model(
                m,
                token_views(tokens@),
            ),
        node_cluster_models(*final(node), rem as nat).contains(r@),
        forall|m: ClusterModel|
            node_cluster_models(*old(node), rem as nat).contains(m) ==> node_cluster_models(
                *final(node),
                rem as nat,
            ).contains(m) || node_cluster_models(*final(node), rem as nat).contains(
                add_log_model(m, token_views(tokens@)),
            ),
    decreases rem,
{
    let ghost length = tokens@.len() as nat;
    match node {
        Node::Leaf(cs) => {
            let ghost cs0 = cs@;
            let r = leaf_match_or_create(cs, tokens, num, den);
            proof {
                let cand = token_views(tokens@);
                if r@ != fresh_cluster_model(cand) {
                    let k = choose|k: int|
                        #![auto]
                        is_first_best(cs0, cand, k) && r@ == add_log_model(cs0[k]@, cand);
                    assert(cs0[k]@.wf() && cs0[k]@.tokens.len() == tokens@.len());
                }
                // the matched or created cluster sits at the front of the leaf
                let models = node_cluster_models(*node, rem as nat);
                assert(models[0] == cs@[0]@);
                assert(models.contains(r@));
                // every cluster the leaf held is still there, at most updated
                assert((*old(node))->Leaf_0@ == cs0);
                let old_models = node_cluster_models(*old(node), rem as nat);
                assert forall|m: ClusterModel| old_models.contains(m) implies models.contains(m)
                    || models.contains(add_log_model(m, cand)) by {
                    let p = choose|p: int| 0 <= p < old_models.len() && old_models[p] == m;
                    assert(cs0[p]@ == m);
                    if cs@.len() == cs0.len() + 1 {
                        // a new cluster at the front; the old ones shifted by one
                        assert(cs@[p + 1] == cs0[p]);
                        assert(models[p + 1] == m);
                    } else {
                        let k = choose|k: int|
                            #![auto]
                            is_first_best(cs0, cand, k) && r@ == add_log_model(cs0[k]@, cand)
                                && cs@[0]@ == r@ && (forall|j: int|
                                1 <= j < cs@.len() ==> cs@[j] == cs0.remove(k)[j - 1]);
                        if m == cs0[k]@ {
                            assert(models[0] == add_log_model(m, cand));
                        } else {
                            let q: int = if p < k {
                                p
                            } else {
                                p - 1
                            };
                            assert(cs0.remove(k)[q] == cs0[p]);
                            assert(cs@[q + 1] == cs0[p]);
                            assert(models[q + 1] == m);
                        }
                    }
                }
            }
            r
        },
        Node::Internal(ch) => {
            let key = key_at(tokens, level);
            let ghost ch0 = ch@;
            let mut idx: usize;
            match find_child(ch, key.as_str()) {
                Option::Some(i) => {
                    idx = i;
                },
                Option::None => {
                    if ch.len() < maxc && !str_eq(key.as_str(), "<*>") {
                        ch.push(ChildEntry { key: key, node: make_empty(rem - 1) });
                        idx = ch.len() - 1;
                        proof {
                            let s = ch@;
                            lemma_count_congruent(ch0, s, ch0.len() as int);
                            lemma_count_le_len(ch0, ch0.len() as int);
                            assert(count_non_wc_upto(s, s.len() as int) == count_non_wc_upto(
                                s,
                                s.len() - 1,
                            ) + 1);
                            lemma_children_wf_congruent(
                                ch0,
                                s,
                                ch0.len() as int,
                                rem as nat,
                                length,
                                maxc as nat,
                            );
                            assert(node_wf(s[s.len() - 1].node, (rem - 1) as nat, length,
                                maxc as nat));
                        }
                    } else {
                        match find_child(ch, "<*>") {
                            Option::Some(i) => {
                                idx = i;
                            },
                            Option::None => {
                                proof {
                                    lemma_count_all_non_wc(ch@, ch@.len() as int);
                                }
                                ch.push(
                                    ChildEntry { key: "<*>".to_owned(), node: make_empty(rem - 1) },
                                );
                                idx = ch.len() - 1;
                                proof {
                                    let s = ch@;
                                    lemma_count_congruent(ch0, s, ch0.len() as int);
                                    assert(count_non_wc_upto(s, s.len() as int)
                                        == count_non_wc_upto(s, s.len() - 1));
                                    lemma_children_wf_congruent(
                                        ch0,
                                        s,
                                        ch0.len() as int,
                                        rem as nat,
                                        length,
                                        maxc as nat,
                                    );
                                    assert(node_wf(s[s.len() - 1].node, (rem - 1) as nat, length,
                                        maxc as nat));
                                }
                            },
                        }
                    }
                },
            }
            proof {
                assert(node_wf(Node::Internal(*ch), rem as nat, length, maxc as nat));
            }
            let ghost ch1 = ch@;
            let mut entry = ch.remove(idx);
            proof {
                lemma_children_wf_index(ch1, ch1.len() as int, rem as nat, length, maxc as nat,
                    idx as int);
            }
            let ghost child0 = entry.node;
            let r = node_route(&mut entry.node, tokens, level + 1, rem - 1, maxc, num, den);
            ch.insert(idx, entry);
            proof {
                let s = ch@;
                assert(s =~= ch1.update(idx as int, entry));
                assert(entry.key == ch1[idx as int].key);
                lemma_children_wf_update(
                    ch1,
                    ch1.len() as int,
                    rem as nat,
                    length,
                    maxc as nat,
                    idx as int,
                    entry,
                );
                lemma_children_wf_congruent(
                    ch1.update(idx as int, entry),
                    s,
                    s.len() as int,
                    rem as nat,
                    length,
                    maxc as nat,
                );
                lemma_count_congruent(ch1, s, s.len() as int);
                assert(node_wf(Node::Internal(*ch), rem as nat, length, maxc as nat));
                // the routed child holds the matched or created cluster
                let remn = rem as nat;
                let cand = token_views(tokens@);
                assert(s[idx as int].node == entry.node);
                lemma_children_models_member(s, s.len() as int, remn, idx as int, r@);
                // every cluster the node held sits under some child, which
                // either kept it or holds its updated form
                assert((*old(node))->Internal_0@ == ch0);
                let old_models = node_cluster_models(*old(node), remn);
                let models = node_cluster_models(Node::Internal(*ch), remn);
                assert forall|m: ClusterModel| old_models.contains(m) implies models.contains(m)
                    || models.contains(add_log_model(m, cand)) by {
                    lemma_children_models_decompose(ch0, ch0.len() as int, remn, m);
                    let k = choose|k: int|
                        0 <= k < ch0.len() && node_cluster_models(
                            (#[trigger] ch0[k]).node,
                            (remn - 1) as nat,
                        ).contains(m);
                    assert(ch1[k] == ch0[k]);
                    if k == idx {
                        assert(ch1[idx as int].node == child0);
                        if node_cluster_models(entry.node, (remn - 1) as nat).contains(m) {
                            lemma_children_models_member(s, s.len() as int, remn, idx as int, m);
                        } else {
                            assert(node_cluster_models(entry.node, (remn - 1) as nat).contains(
                                add_log_model(m, cand)));
                            lemma_children_models_member(
                                s,
                                s.len() as int,
                                remn,
                                idx as int,
                                add_log_model(m, cand),
                            );
                        }
                    } else {
                        assert(s[k].node == ch1[k].node);
                        lemma_children_models_member(s, s.len() as int, remn, k, m);
                    }
                }
            }
            r
        },
    }
}

/// Every cluster value in the tree: bucket order, then child order, then
/// most-recently-matched first within a leaf.
pub open spec fn tree_cluster_models(t: DrainTree) -> Seq<ClusterModel> {
    root_cluster_models(t.root@, t.root@.len() as int, spec_key_levels(t.max_depth))
}

/// The online template-mining engine: a fixed-depth prefix tree routing each
/// tokenized line by its token count and then by its first tokens to a leaf,
/// where the line is folded into the most similar cluster or opens a new one.
pub struct DrainTree {
    pub max_depth: usize,
    pub max_children: usize,
    pub min_sim_num: u64,
    pub min_sim_den: u64,
    pub root: Vec<LengthEntry>,
}

/// How many internal token-key levels stand between a length bucket and its
/// leaves: the total root-to-leaf path length less the root, the length
/// bucket and the leaf itself.
pub open spec fn spec_key_levels(max_depth: usize) -> nat {
    if max_depth >= 3 {
        (max_depth - 3) as nat
    } else {
        0
    }
}

impl DrainTree {
    fn key_levels(&self) -> (r: usize)
        ensures
            r as nat == spec_key_levels(self.max_depth),
    {
        if self.max_depth >= 3 {
            self.max_depth - 3
        } else {
            0
        }
    }

    /// The tree invariant: a valid configuration, pairwise distinct length
    /// buckets, and under each bucket a well-formed subtree of uniform depth
    /// whose leaves hold only clusters of the bucket's length.
    pub open spec fn wf(self) -> bool {
        &&& self.max_depth >= 2
        &&& self.max_children >= 1
        &&& 1 <= self.min_sim_den
        &&& self.min_sim_num <= self.min_sim_den
        &&& forall|i: int, j: int|
            0 <= i < j < self.root@.len() ==> self.root@[i].length != self.root@[j].length
        &&& forall|i: int|
            0 <= i < self.root@.len() ==> node_wf(
                (#[trigger] self.root@[i]).node,
                spec_key_levels(self.max_depth),
                self.root@[i].length as nat,
                self.max_children as nat,
            )
    }

    /// Builds an empty engine, rejecting an invalid configuration: the depth
    /// must be at least two, the fan-out cap at least one, and the acceptance
    /// threshold `min_sim_num / min_sim_den` a fraction in `[0, 1]`.
    pub fn new(max_depth: usize, max_children: usize, min_sim_num: u64, min_sim_den: u64) -> (r:
        Option<DrainTree>)
        ensures
            (r is Some) == (max_depth >= 2 && max_children >= 1 && 1 <= min_sim_den
                && min_sim_num <= min_sim_den),
            r matches Some(t) ==> t.wf() && t.max_depth == max_depth && t.max_children
                == max_children && t.min_sim_num == min_sim_num && t.min_sim_den == min_sim_den
                && t.root@.len() == 0,
    {
        if max_depth >= 2 && max_children >= 1 && 1 <= min_sim_den && min_sim_num <= min_sim_den {
            Option::Some(
                DrainTree {
                    max_depth,
                    max_children,
                    min_sim_num,
                    min_sim_den,
                    root: Vec::new(),
                },
            )
        } else {
            Option::None
        }
    }

    /// Ingests one tokenized line. Returns `None` exactly when the line holds
    /// no token; otherwise routes the line to its leaf, folds it into the
    /// matched or newly created cluster, and returns a copy of that cluster,
    /// which then holds as many tokens as the line.
    pub fn add_log_line(&mut self, tokens: Vec<Token>) -> (r: Option<LogCluster>)
        requires
            old(self).wf(),
            forall|i: int| 0 <= i < tokens@.len() ==> (#[trigger] tokens@[i]).wf(),
        ensures
            final(self).wf(),
            final(self).max_depth == old(self).max_depth,
            final(self).max_children == old(self).max_children,
            final(self).min_sim_num == old(self).min_sim_num,
            final(self).min_sim_den == old(self).min_sim_den,
            (r is None) == (tokens@.len() == 0),
            r matches Some(c) ==> c@.wf() && c@.tokens.len() == tokens@.len()
                && c@.num_matched >= 1,
            r matches Some(c) ==> c@ == fresh_cluster_model(token_views(tokens@)) || exists|
                m: ClusterModel,
            |
                #![auto]
                m.wf() && m.tokens.len() == tokens@.len() && c@ == add_log_model(
                    m,
                    token_views(tokens@),
                ),
            r matches Some(c) ==> tree_cluster_models(*final(self)).contains(c@),
            forall|m: ClusterModel|
                tree_cluster_models(*old(self)).contains(m) ==> tree_cluster_models(
                    *final(self),
                ).contains(m) || tree_cluster_models(*final(self)).contains(
                    add_log_model(m, token_views(tokens@)),
                ),
    {
        if tokens.len() == 0 {
            return Option::None;
        }
        let n = tokens.len();
        let rem = self.key_levels();
        let ghost root0 = self.root@;
        let mut idx: usize;
        match Self::find_bucket(&self.root, n) {
            Option::Some(i) => {
                idx = i;
            },
            Option::None => {
                self.root.push(LengthEntry { length: n, node: make_empty(rem) });
                idx = self.root.len() - 1;
            },
        }
        let ghost root1 = self.root@;
        let mut entry = self.root.remove(idx);
        let ghost node0 = entry.node;
        let r = node_route(&mut entry.node, &tokens, 0, rem, self.max_children, self.min_sim_num,
            self.min_sim_den);
        proof {
            assert(entry.length == n);
        }
        self.root.insert(idx, entry);
        proof {
            let s = self.root@;
            assert(s =~= root1.update(idx as int, entry));
            assert forall|i: int| 0 <= i < s.len() implies node_wf(
                (#[trigger] s[i]).node,
                spec_key_levels(self.max_depth),
                s[i].length as nat,
                self.max_children as nat,
            ) by {
                if i != idx {
                    assert(s[i] == root1[i]);
                }
            }
            assert forall|i: int, j: int| 0 <= i < j < s.len() implies s[i].length
                != s[j].length by {
                assert(s[i].length == root1[i].length);
                assert(s[j].length == root1[j].length);
            }
            // the routed bucket holds the matched or created cluster
            let remn = spec_key_levels(self.max_depth);
            let cand = token_views(tokens@);
            assert(s[idx as int].node == entry.node);
            lemma_root_models_member(s, s.len() as int, remn, idx as int, r@);
            // every cluster the tree held sits under some bucket, which
            // either kept it or holds its updated form
            let old_models = tree_cluster_models(*old(self));
            let models = tree_cluster_models(*self);
            assert forall|m: ClusterModel| old_models.contains(m) implies models.contains(m)
                || models.contains(add_log_model(m, cand)) by {
                lemma_root_models_decompose(root0, root0.len() as int, remn, m);
                let k = choose|k: int|
                    0 <= k < root0.len() && node_cluster_models(
                        (#[trigger] root0[k]).node,
                        remn,
                    ).contains(m);
                assert(root1[k] == root0[k]);
                if k == idx {
                    assert(root1[idx as int].node == node0);
                    if node_cluster_models(entry.node, remn).contains(m) {
                        lemma_root_models_member(s, s.len() as int, remn, idx as int, m);
                    } else {
                        assert(node_cluster_models(entry.node, remn).contains(
                            add_log_model(m, cand)));
                        lemma_root_models_member(
                            s,
                            s.len() as int,
                            remn,
                            idx as int,
                            add_log_model(m, cand),
                        );
                    }
                } else {
                    assert(s[k].node == root1[k].node);
                    lemma_root_models_member(s, s.len() as int, remn, k, m);
                }
            }
        }
        Option::Some(r)
    }

    /// The index of the bucket for lines of `length` tokens, if there is one.
    fn find_bucket(root: &Vec<LengthEntry>, length: usize) -> (r: Option<usize>)
        ensures
            match r {
                Option::Some(i) => i < root@.len() && root@[i as int].length == length,
                Option::None => forall|j: int| 0 <= j < root@.len() ==> root@[j].length != length,
            },
    {
        let mut i: usize = 0;
        while i < root.len()
            invariant
                i <= root@.len(),
                forall|j: int| 0 <= j < i ==> root@[j].length != length,
            decreases root@.len() - i,
        {
            if root[i].length == length {
                return Option::Some(i);
            }
            i = i + 1;
        }
        Option::None
    }

    /// Copies of every cluster in the tree, in bucket order, then child order,
    /// then most-recently-matched first within a leaf.
    pub fn log_groups(&self) -> (r: Vec<LogCluster>)
        requires
            self.wf(),
        ensures
            forall|i: int| 0 <= i < r@.len() ==> (#[trigger] r@[i]@).wf(),
            cluster_models_of(r@) == tree_cluster_models(*self),
    {
        let mut out: Vec<LogCluster> = Vec::new();
        proof {
            assert(cluster_models_of(out@) =~= Seq::<ClusterModel>::empty());
        }
        let mut i: usize = 0;
        while i < self.root.len()
            invariant
                i <= self.root@.len(),
                self.wf(),
                forall|j: int| 0 <= j < out@.len() ==> (#[trigger] out@[j]@).wf(),
                cluster_models_of(out@) == root_cluster_models(
                    self.root@,
                    i as int,
                    spec_key_levels(self.max_depth),
                ),
            decreases self.root@.len() - i,
        {
            let ghost length = self.root@[i as int].length as nat;
            let ghost before = cluster_models_of(out@);
            let rem = self.key_levels();
            collect_clusters(&self.root[i].node, rem, &mut out);
            i = i + 1;
        }
        out
    }
}

/// Appends a copy of every cluster under `node` to `out`, leaves in child
/// order, clusters in list order.
fn collect_clusters(node: &Node, rem: usize, out: &mut Vec<LogCluster>)
    requires
        exists|length: nat, maxc: nat| node_wf(*node, rem as nat, length, maxc),
        forall|j: int| 0 <= j < old(out)@.len() ==> (#[trigger] old(out)@[j]@).wf(),
    ensures
        final(out)@.len() >= old(out)@.len(),
        forall|j: int| 0 <= j < old(out)@.len() ==> final(out)@[j] == old(out)@[j],
        forall|j: int| 0 <= j < final(out)@.len() ==> (#[trigger] final(out)@[j]@).wf(),
        cluster_models_of(final(out)@) == cluster_models_of(old(out)@) + node_cluster_models(
            *node,
            rem as nat,
        ),
    decreases rem,
{
    match node {
        Node::Leaf(cs) => {
            let mut i: usize = 0;
            while i < cs.len()
                invariant
                    i <= cs@.len(),
                    exists|length: nat, maxc: nat| node_wf(*node, rem as nat, length, maxc),
                    node == Node::Leaf(*cs),
                    out@.len() == old(out)@.len() + i,
                    forall|j: int| 0 <= j < old(out)@.len() ==> out@[j] == old(out)@[j],
                    forall|j: int|
                        0 <= j < i ==> (#[trigger] out@[old(out)@.len() + j])@ == cs@[j]@,
                    forall|j: int| 0 <= j < out@.len() ==> (#[trigger] out@[j]@).wf(),
                decreases cs@.len() - i,
            {
                proof {
                    let (length, maxc): (nat, nat) = choose|length: nat, maxc: nat|
                        node_wf(*node, rem as nat, length, maxc);
                    assert((*node)->Leaf_0 == *cs);
                    assert(((*node)->Leaf_0)@[i as int]@.wf());
                    assert(cs@[i as int]@.wf());
                }
                out.push(cs[i].duplicate());
                i = i + 1;
            }
            proof {
                assert((*node)->Leaf_0 == *cs);
                let lm = node_cluster_models(*node, rem as nat);
                assert(lm == cs@.map_values(|c: LogCluster| c@));
                assert(forall|j: int| 0 <= j < cs@.len() ==> #[trigger] lm[j] == cs@[j]@);
                assert(forall|j: int|
                    0 <= j < out@.len() ==> #[trigger] cluster_models_of(out@)[j] == out@[j]@);
                assert(forall|j: int|
                    0 <= j < old(out)@.len() ==> #[trigger] cluster_models_of(old(out)@)[j]
                        == old(out)@[j]@);
                assert forall|j: int|
                    old(out)@.len() <= j < out@.len() implies out@[j]@ == cs@[j - old(
                        out,
                    )@.len()]@ by {
                    let k = j - old(out)@.len();
                    assert(out@[old(out)@.len() + k]@ == cs@[k]@);
                }
                assert(cluster_models_of(out@) =~= cluster_models_of(old(out)@) + lm);
            }
        },
        Node::Internal(ch) => {
            proof {
                let (length, maxc): (nat, nat) = choose|length: nat, maxc: nat|
                    node_wf(*node, rem as nat, length, maxc);
                assert(rem > 0);
            }
            let mut i: usize = 0;
            while i < ch.len()
                invariant
                    i <= ch@.len(),
                    rem >= 1,
                    exists|length: nat, maxc: nat| node_wf(*node, rem as nat, length, maxc),
                    node == Node::Internal(*ch),
                    out@.len() >= old(out)@.len(),
                    forall|j: int| 0 <= j < old(out)@.len() ==> out@[j] == old(out)@[j],
                    forall|j: int| 0 <= j < out@.len() ==> (#[trigger] out@[j]@).wf(),
                    cluster_models_of(out@) == cluster_models_of(old(out)@)
                        + children_cluster_models(ch@, i as int, rem as nat),
                decreases ch@.len() - i,
            {
                proof {
                    let (length, maxc): (nat, nat) = choose|length: nat, maxc: nat|
                        node_wf(*node, rem as nat, length, maxc);
                    lemma_children_wf_index(ch@, ch@.len() as int, rem as nat, length, maxc,
                        i as int);
                    assert(node_wf(ch@[i as int].node, (rem - 1) as nat, length, maxc));
                }
                let ghost before = cluster_models_of(out@);
                collect_clusters(&ch[i].node, rem - 1, out);
                proof {
                    assert(cluster_models_of(out@) =~= cluster_models_of(old(out)@)
                        + children_cluster_models(ch@, i + 1, rem as nat));
                }
                i = i + 1;
            }
            proof {
                assert((*node)->Internal_0 == *ch);
            }
        },
    }
}

/// Length homogeneity: under the tree invariant, a leaf for lines of
/// `length` tokens holds only clusters of exactly `length` tokens.
pub proof fn lemma_leaf_length_homogeneous(n: Node, rem: nat, length: nat, maxc: nat, i: int)
    requires
        node_wf(n, rem, length, maxc),
        n is Leaf,
        0 <= i < n->Leaf_0@.len(),
    ensures
        n->Leaf_0@[i]@.tokens.len() == length,
        n->Leaf_0@[i]@.wf(),
{
}

/// Fan-out bound: under the tree invariant, an internal node has at most
/// `maxc` children besides the wildcard child, and at most `maxc + 1`
/// children in all.
pub proof fn lemma_fanout_bound(n: Node, rem: nat, length: nat, maxc: nat)
    requires
        node_wf(n, rem, length, maxc),
        n is Internal,
    ensures
        count_non_wc(n->Internal_0@) <= maxc as int,
        n->Internal_0@.len() <= maxc + 1,
{
}

} // verus!
