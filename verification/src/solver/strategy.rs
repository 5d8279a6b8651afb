//! Parity graphs, players, relevances, rewards and play profiles used by
//! strategy improvement.
use std::cmp::Ordering;

use vstd::prelude::*;

pub use super::index::NodeId;

verus! {

/// One of the two players of a parity game.
#[derive(Clone, Copy, Debug, PartialEq, Eq, Structural)]
pub enum Player {
    P0,
    P1,
}

impl Player {
    /// The other player.
    pub fn opponent(self) -> (r: Player)
        ensures
            r != self,
    {
        match self {
            Player::P0 => Player::P1,
            Player::P1 => Player::P0,
        }
    }
}

/// The player favoured by a priority: even priorities favour player 0.
pub open spec fn player_of_priority(priority: nat) -> Player {
    if priority % 2 == 0 {
        Player::P0
    } else {
        Player::P1
    }
}

/// The relevance of a node: its priority, with the node itself as tie breaker.
#[derive(Clone, Copy, PartialEq, Eq, Structural)]
pub struct Relevance {
    pub priority: usize,
    pub node: NodeId,
}

/// Strict order of relevances: by priority, then by node.
pub open spec fn relevance_lt(a: Relevance, b: Relevance) -> bool {
    a.priority < b.priority || (a.priority == b.priority && a.node.0 < b.node.0)
}

impl Relevance {
    pub open spec fn spec_player(self) -> Player {
        player_of_priority(self.priority as nat)
    }

    pub open spec fn spec_reward(self) -> Reward {
        match self.spec_player() {
            Player::P0 => Reward::P0(self),
            Player::P1 => Reward::P1(self),
        }
    }

    /// The player favoured by this relevance.
    pub fn player(self) -> (r: Player)
        ensures
            r == self.spec_player(),
    {
        if self.priority % 2 == 0 {
            Player::P0
        } else {
            Player::P1
        }
    }

    /// The player favoured by this relevance.
    pub fn winner(self) -> (r: Player)
        ensures
            r == self.spec_player(),
    {
        self.player()
    }

    /// The reward that visiting a node with this relevance gives.
    pub fn reward(self) -> (r: Reward)
        ensures
            r == self.spec_reward(),
    {
        match self.player() {
            Player::P0 => Reward::P0(self),
            Player::P1 => Reward::P1(self),
        }
    }
}

/// The reward of visiting a node. Rewards in favour of player 1 are the
/// smallest, and among them a more relevant one is smaller; rewards in favour
/// of player 0 are the largest, and among them a more relevant one is larger.
#[derive(Clone, Copy, PartialEq, Eq, Structural)]
pub enum Reward {
    P1(Relevance),
    Neutral,
    P0(Relevance),
}

/// Strict order of rewards.
pub open spec fn reward_lt(a: Reward, b: Reward) -> bool {
    match (a, b) {
        (Reward::P1(x), Reward::P1(y)) => relevance_lt(y, x),
        (Reward::P1(_), _) => true,
        (Reward::Neutral, Reward::P0(_)) => true,
        (Reward::P0(x), Reward::P0(y)) => relevance_lt(x, y),
        _ => false,
    }
}


/// Three-way comparison induced by a strict order.
pub open spec fn order_of(lt: bool, eq: bool) -> Ordering {
    if lt {
        Ordering::Less
    } else if eq {
        Ordering::Equal
    } else {
        Ordering::Greater
    }
}

/// The opposite of an ordering.
pub open spec fn reversed(o: Ordering) -> Ordering {
    match o {
        Ordering::Less => Ordering::Greater,
        Ordering::Equal => Ordering::Equal,
        Ordering::Greater => Ordering::Less,
    }
}

pub open spec fn relevance_order(a: Relevance, b: Relevance) -> Ordering {
    order_of(relevance_lt(a, b), a == b)
}

pub open spec fn reward_order(a: Reward, b: Reward) -> Ordering {
    order_of(reward_lt(a, b), a == b)
}

pub open spec fn usize_order(a: usize, b: usize) -> Ordering {
    order_of(a < b, a == b)
}

/// Lexicographic comparison of two sequences of rewards, a proper prefix
/// being smaller.
pub open spec fn rewards_order(a: Seq<Reward>, b: Seq<Reward>) -> Ordering
    decreases a.len(),
{
    if a.len() == 0 {
        if b.len() == 0 {
            Ordering::Equal
        } else {
            Ordering::Less
        }
    } else if b.len() == 0 {
        Ordering::Greater
    } else {
        let c = reward_order(a[0], b[0]);
        if c != Ordering::Equal {
            c
        } else {
            rewards_order(a.drop_first(), b.drop_first())
        }
    }
}

/// Compares two relevances.
pub fn relevance_cmp(a: Relevance, b: Relevance) -> (r: Ordering)
    ensures
        r == relevance_order(a, b),
{
    if a.priority < b.priority || (a.priority == b.priority && a.node.0 < b.node.0) {
        Ordering::Less
    } else if a.priority == b.priority && a.node.0 == b.node.0 {
        Ordering::Equal
    } else {
        Ordering::Greater
    }
}

/// Compares two rewards.
pub fn reward_cmp(a: Reward, b: Reward) -> (r: Ordering)
    ensures
        r == reward_order(a, b),
{
    match (a, b) {
        (Reward::P1(x), Reward::P1(y)) => relevance_cmp(y, x),
        (Reward::P1(_), _) => Ordering::Less,
        (Reward::Neutral, Reward::P1(_)) => Ordering::Greater,
        (Reward::Neutral, Reward::Neutral) => Ordering::Equal,
        (Reward::Neutral, Reward::P0(_)) => Ordering::Less,
        (Reward::P0(x), Reward::P0(y)) => relevance_cmp(x, y),
        (Reward::P0(_), _) => Ordering::Greater,
    }
}

/// Whether two sequences agree on their first `i` elements.
pub open spec fn same_prefix(a: Seq<Reward>, b: Seq<Reward>, i: int) -> bool {
    forall|k: int| 0 <= k < i ==> a[k] == b[k]
}

/// The lexicographic order is decided at the first position where two
/// sequences differ.
proof fn lemma_rewards_order_first_difference(a: Seq<Reward>, b: Seq<Reward>)
    ensures
        forall|i: int|
            #![trigger same_prefix(a, b, i)]
            0 <= i <= a.len() && i <= b.len() && same_prefix(a, b, i) ==> {
                &&& (i < a.len() && i < b.len() && a[i] != b[i]) ==> rewards_order(a, b)
                    == reward_order(a[i], b[i])
                &&& (i == a.len() && i < b.len()) ==> rewards_order(a, b) == Ordering::Less
                &&& (i < a.len() && i == b.len()) ==> rewards_order(a, b) == Ordering::Greater
                &&& (i == a.len() && i == b.len()) ==> rewards_order(a, b) == Ordering::Equal
            },
    decreases a.len(),
{
    if a.len() > 0 && b.len() > 0 {
        lemma_rewards_order_first_difference(a.drop_first(), b.drop_first());
        assert forall|i: int|
            #![trigger same_prefix(a, b, i)]
            0 < i <= a.len() && i <= b.len() && same_prefix(a, b, i) implies same_prefix(
                a.drop_first(),
                b.drop_first(),
                i - 1,
            ) by {
            assert forall|k: int| 0 <= k < i - 1 implies a.drop_first()[k] == b.drop_first()[k] by {
                assert(a[k + 1] == b[k + 1]);
            }
        }
    }
}

/// The first position where two sequences of rewards differ, or the length of
/// the shorter one.
fn first_difference(a: &Vec<Reward>, b: &Vec<Reward>) -> (i: usize)
    ensures
        i <= a.len(),
        i <= b.len(),
        same_prefix(a@, b@, i as int),
        i < a.len() && i < b.len() ==> a@[i as int] != b@[i as int],
{
    let mut i: usize = 0;
    while i < a.len() && i < b.len()
        invariant
            i <= a.len(),
            i <= b.len(),
            same_prefix(a@, b@, i as int),
        decreases a.len() - i,
    {
        if a[i] != b[i] {
            return i;
        }
        i = i + 1;
    }
    i
}

/// Compares two sequences of rewards lexicographically.
pub fn rewards_cmp(a: &Vec<Reward>, b: &Vec<Reward>) -> (r: Ordering)
    ensures
        r == rewards_order(a@, b@),
{
    let i = first_difference(a, b);
    proof {
        lemma_rewards_order_first_difference(a@, b@);
    }
    if i < a.len() && i < b.len() {
        reward_cmp(a[i], b[i])
    } else if i < a.len() {
        Ordering::Greater
    } else if i < b.len() {
        Ordering::Less
    } else {
        Ordering::Equal
    }
}

/// Compares two `usize` values.
pub fn usize_cmp(a: usize, b: usize) -> (r: Ordering)
    ensures
        r == usize_order(a, b),
{
    if a < b {
        Ordering::Less
    } else if a == b {
        Ordering::Equal
    } else {
        Ordering::Greater
    }
}

/// A graph that gives each of its nodes a relevance.
pub trait GetRelevance {
    /// `u` is a node of the graph.
    spec fn valid_node(&self, u: NodeId) -> bool;

    spec fn spec_relevance_of(&self, u: NodeId) -> Relevance;

    fn relevance_of(&self, u: NodeId) -> (r: Relevance)
        requires
            self.valid_node(u),
        ensures
            r == self.spec_relevance_of(u),
    ;

    fn reward_of(&self, u: NodeId) -> (r: Reward)
        requires
            self.valid_node(u),
        ensures
            r == self.spec_relevance_of(u).spec_reward(),
    {
        self.relevance_of(u).reward()
    }
}

/// A parity game graph: its nodes with their players and relevances, and
/// their edges. Iterators of nodes are given as vectors.
pub trait ParityGraph: GetRelevance {
    /// The data of the graph agree.
    spec fn graph_wf(&self) -> bool;

    /// The player moving at `n`.
    spec fn spec_player(&self, n: NodeId) -> Player;

    /// The successors of `n`.
    spec fn spec_succs(&self, n: NodeId) -> Seq<NodeId>;

    /// The predecessors of `n`.
    spec fn spec_preds(&self, n: NodeId) -> Seq<NodeId>;

    fn node_count(&self) -> usize;

    fn player_of(&self, n: NodeId) -> (r: Player)
        requires
            self.valid_node(n),
        ensures
            r == self.spec_player(n),
    ;

    fn successors_of(&self, n: NodeId) -> (r: Vec<NodeId>)
        requires
            self.valid_node(n),
        ensures
            r@ == self.spec_succs(n),
    ;

    fn predecessors_of(&self, n: NodeId) -> (r: Vec<NodeId>)
        requires
            self.valid_node(n),
        ensures
            r@ == self.spec_preds(n),
    ;

    fn nodes_sorted_by_reward(&self) -> Vec<NodeId>
        requires
            self.graph_wf(),
    ;
}

/// A strategy of player 0 on a parity graph, with its inverse. Sequences of
/// nodes are given as vectors.
pub trait Strategy {
    type Graph: ParityGraph;

    /// The strategy is one for `graph`.
    spec fn fits(&self, graph: &Self::Graph) -> bool;

    /// The pairs of a node of player 0 and its successor under the strategy.
    fn iter(&self, graph: &Self::Graph) -> Vec<(NodeId, NodeId)>
        requires
            self.fits(graph),
    ;

    /// The successor of `n`, a node of player 0.
    fn get_direct(&self, n: NodeId, graph: &Self::Graph) -> NodeId
        requires
            self.fits(graph),
            graph.valid_node(n),
            graph.spec_player(n) == Player::P0,
    ;

    /// The nodes of player 0 that move to `n`, a node of player 1.
    fn get_inverse(&self, n: NodeId, graph: &Self::Graph) -> Vec<NodeId>
        requires
            self.fits(graph),
            graph.valid_node(n),
            graph.spec_player(n) == Player::P1,
    ;

    /// The predecessors of `n` in the graph restricted to the strategy.
    fn predecessors_of(&self, n: NodeId, graph: &Self::Graph) -> Vec<NodeId>
        requires
            self.fits(graph),
            graph.valid_node(n),
    ;

    /// The successors of `n` in the graph restricted to the strategy.
    fn successors_of(&self, n: NodeId, graph: &Self::Graph) -> Vec<NodeId>
        requires
            self.fits(graph),
            graph.valid_node(n),
    ;
}

/// Every node that the profile names is a node of the graph.
pub open spec fn profile_valid<G: GetRelevance>(p: PlayProfile, gr: &G) -> bool {
    &&& gr.valid_node(p.most_relevant)
    &&& forall|j: int| 0 <= j < p.relevant_before@.len() ==> gr.valid_node(#[trigger] p.relevant_before@[j])
}

/// The play profile of a node under a pair of strategies.
#[derive(Clone, Debug, Default)]
pub struct PlayProfile {
    /// Most relevant node of the cycle.
    pub most_relevant: NodeId,
    /// Nodes more relevant visited before the cycle, sorted by most relevant first.
    pub relevant_before: Vec<NodeId>,
    /// Number of nodes visited before the most relevant of the cycle.
    pub count_before: usize,
}

/// The player that wins a play with the given profile.
pub open spec fn spec_winning<G: GetRelevance>(p: PlayProfile, gr: &G) -> Player {
    gr.spec_relevance_of(p.most_relevant).spec_player()
}

/// The rewards of the nodes visited before the cycle, closed by a neutral reward.
pub open spec fn spec_rewards_before<G: GetRelevance>(p: PlayProfile, gr: &G) -> Seq<Reward> {
    p.relevant_before@.map_values(|u: NodeId| gr.spec_relevance_of(u).spec_reward()).push(
        Reward::Neutral,
    )
}

/// The order of play profiles from the point of view of player 0: first the
/// reward of the most relevant node of the cycle, then the rewards of the more
/// relevant nodes visited before it, then the length of the path to it (shorter
/// is better when player 0 wins the cycle, longer when it loses it).
pub open spec fn profile_order<G: GetRelevance>(a: PlayProfile, b: PlayProfile, gr: &G) -> Ordering {
    let c1 = reward_order(
        gr.spec_relevance_of(a.most_relevant).spec_reward(),
        gr.spec_relevance_of(b.most_relevant).spec_reward(),
    );
    let c2 = rewards_order(spec_rewards_before(a, gr), spec_rewards_before(b, gr));
    if c1 != Ordering::Equal {
        c1
    } else if c2 != Ordering::Equal {
        c2
    } else {
        match spec_winning(a, gr) {
            Player::P0 => reversed(usize_order(a.count_before, b.count_before)),
            Player::P1 => usize_order(a.count_before, b.count_before),
        }
    }
}

/// The order of play profiles without the length of the path: the reward of
/// the most relevant node of the cycle, then the rewards of the more relevant
/// nodes visited before it.
pub open spec fn profile_order_w<G: GetRelevance>(a: PlayProfile, b: PlayProfile, gr: &G) -> Ordering {
    let c1 = reward_order(
        gr.spec_relevance_of(a.most_relevant).spec_reward(),
        gr.spec_relevance_of(b.most_relevant).spec_reward(),
    );
    if c1 != Ordering::Equal {
        c1
    } else {
        rewards_order(spec_rewards_before(a, gr), spec_rewards_before(b, gr))
    }
}

impl PlayProfile {
    /// Compares two play profiles from the point of view of player 0, without
    /// the length of the path to the cycle.
    pub fn cmp_w<G: GetRelevance>(&self, that: &PlayProfile, gr: &G) -> (r: Ordering)
        requires
            profile_valid(*self, gr),
            profile_valid(*that, gr),
        ensures
            r == profile_order_w(*self, *that, gr),
    {
        let this_rew = gr.reward_of(self.most_relevant);
        let that_rew = gr.reward_of(that.most_relevant);
        let c1 = reward_cmp(this_rew, that_rew);
        match c1 {
            Ordering::Equal => {},
            _ => {
                return c1;
            },
        }
        rewards_cmp(&self.rewards_before(gr), &that.rewards_before(gr))
    }

    /// The player winning the play.
    pub fn winning<G: GetRelevance>(&self, gr: &G) -> (r: Player)
        requires
            gr.valid_node(self.most_relevant),
        ensures
            r == spec_winning(*self, gr),
    {
        gr.relevance_of(self.most_relevant).player()
    }

    /// The rewards of the more relevant nodes visited before the cycle, followed
    /// by a neutral reward.
    fn rewards_before<G: GetRelevance>(&self, gr: &G) -> (r: Vec<Reward>)
        requires
            profile_valid(*self, gr),
        ensures
            r@ == spec_rewards_before(*self, gr),
    {
        let mut out: Vec<Reward> = Vec::new();
        let mut i: usize = 0;
        while i < self.relevant_before.len()
            invariant
                i <= self.relevant_before.len(),
                profile_valid(*self, gr),
                out@ == self.relevant_before@.subrange(0, i as int).map_values(
                    |u: NodeId| gr.spec_relevance_of(u).spec_reward(),
                ),
            decreases self.relevant_before.len() - i,
        {
            let rw = gr.reward_of(self.relevant_before[i]);
            out.push(rw);
            i = i + 1;
            proof {
                assert(out@ =~= self.relevant_before@.subrange(0, i as int).map_values(
                    |u: NodeId| gr.spec_relevance_of(u).spec_reward(),
                ));
            }
        }
        out.push(Reward::Neutral);
        proof {
            assert(self.relevant_before@.subrange(0, i as int) =~= self.relevant_before@);
        }
        out
    }

    /// Compares two play profiles from the point of view of player 0.
    pub fn cmp<G: GetRelevance>(&self, that: &PlayProfile, gr: &G) -> (r: Ordering)
        requires
            profile_valid(*self, gr),
            profile_valid(*that, gr),
        ensures
            r == profile_order(*self, *that, gr),
    {
        let this_rew = gr.reward_of(self.most_relevant);
        let that_rew = gr.reward_of(that.most_relevant);
        let c1 = reward_cmp(this_rew, that_rew);
        match c1 {
            Ordering::Equal => {},
            _ => {
                return c1;
            },
        }
        let c2 = rewards_cmp(&self.rewards_before(gr), &that.rewards_before(gr));
        match c2 {
            Ordering::Equal => {},
            _ => {
                return c2;
            },
        }
        let c3 = usize_cmp(self.count_before, that.count_before);
        match self.winning(gr) {
            Player::P0 => match c3 {
                Ordering::Less => Ordering::Greater,
                Ordering::Equal => Ordering::Equal,
                Ordering::Greater => Ordering::Less,
            },
            Player::P1 => c3,
        }
    }
}

/// The order of sequences of rewards is antisymmetric.
proof fn lemma_rewards_order_antisymmetric(a: Seq<Reward>, b: Seq<Reward>)
    ensures
        rewards_order(a, b) == reversed(rewards_order(b, a)),
    decreases a.len(),
{
    if a.len() > 0 && b.len() > 0 {
        lemma_rewards_order_antisymmetric(a.drop_first(), b.drop_first());
    }
}

/// Comparing a sequence of rewards with itself gives `Equal`.
proof fn lemma_rewards_order_reflexive(a: Seq<Reward>)
    ensures
        rewards_order(a, a) == Ordering::Equal,
    decreases a.len(),
{
    if a.len() > 0 {
        lemma_rewards_order_reflexive(a.drop_first());
    }
}

/// `Equal` in the order of sequences of rewards is equality.
proof fn lemma_rewards_order_equal(a: Seq<Reward>, b: Seq<Reward>)
    requires
        rewards_order(a, b) == Ordering::Equal,
    ensures
        a == b,
    decreases a.len(),
{
    if a.len() > 0 && b.len() > 0 {
        lemma_rewards_order_equal(a.drop_first(), b.drop_first());
        assert(a =~= seq![a[0]] + a.drop_first());
        assert(b =~= seq![b[0]] + b.drop_first());
    }
}

/// The order of sequences of rewards is transitive.
proof fn lemma_rewards_order_transitive(a: Seq<Reward>, b: Seq<Reward>, c: Seq<Reward>)
    requires
        rewards_order(a, b) == Ordering::Less,
        rewards_order(b, c) == Ordering::Less,
    ensures
        rewards_order(a, c) == Ordering::Less,
    decreases a.len(),
{
    if a.len() > 0 && b.len() > 0 && c.len() > 0 {
        if reward_order(a[0], b[0]) == Ordering::Equal && reward_order(b[0], c[0])
            == Ordering::Equal {
            lemma_rewards_order_transitive(a.drop_first(), b.drop_first(), c.drop_first());
        } else if reward_order(a[0], b[0]) == Ordering::Equal {
            assert(a[0] == b[0]);
        } else if reward_order(b[0], c[0]) == Ordering::Equal {
            assert(b[0] == c[0]);
        }
    }
}

/// Visiting a node of even priority rewards player 0 and one of odd priority
/// rewards player 1, more so the more relevant the node: rewards of odd
/// priority come below the neutral reward, which comes below those of even
/// priority; among even ones the more relevant is larger, among odd ones the
/// more relevant is smaller.
pub proof fn reward_order_by_priority(x: Relevance, y: Relevance)
    ensures
        x.priority % 2 == 1 ==> reward_order(x.spec_reward(), Reward::Neutral) == Ordering::Less,
        x.priority % 2 == 0 ==> reward_order(x.spec_reward(), Reward::Neutral) == Ordering::Greater,
        x.priority % 2 == 1 && y.priority % 2 == 0 ==> reward_order(x.spec_reward(), y.spec_reward())
            == Ordering::Less,
        x.priority % 2 == 0 && y.priority % 2 == 0 && (x.priority < y.priority || (x.priority == y.priority
            && x.node.0 < y.node.0)) ==> reward_order(x.spec_reward(), y.spec_reward()) == Ordering::Less,
        x.priority % 2 == 1 && y.priority % 2 == 1 && (x.priority < y.priority || (x.priority == y.priority
            && x.node.0 < y.node.0)) ==> reward_order(x.spec_reward(), y.spec_reward()) == Ordering::Greater,
{
}

/// Sequences of rewards compare by their first difference: after a common
/// prefix, the first pair of different rewards decides.
pub proof fn rewards_order_first_difference(p: Seq<Reward>, x: Reward, y: Reward, q: Seq<Reward>, r: Seq<Reward>)
    requires
        x != y,
    ensures
        rewards_order(p + seq![x] + q, p + seq![y] + r) == reward_order(x, y),
    decreases p.len(),
{
    let a = p + seq![x] + q;
    let b = p + seq![y] + r;
    if p.len() == 0 {
        assert(a[0] == x && b[0] == y);
    } else {
        assert(a[0] == p[0] && b[0] == p[0]);
        assert(a.drop_first() == p.drop_first() + seq![x] + q);
        assert(b.drop_first() == p.drop_first() + seq![y] + r);
        rewards_order_first_difference(p.drop_first(), x, y, q, r);
    }
}

/// Two play profiles with cycles of the same reward compare by the rewards of
/// the relevant nodes visited before the cycle, as long as those differ.
pub proof fn profile_order_by_rewards_before<G: GetRelevance>(a: PlayProfile, b: PlayProfile, gr: &G)
    requires
        gr.spec_relevance_of(a.most_relevant).spec_reward() == gr.spec_relevance_of(b.most_relevant).spec_reward(),
        rewards_order(spec_rewards_before(a, gr), spec_rewards_before(b, gr)) != Ordering::Equal,
    ensures
        profile_order(a, b, gr) == rewards_order(spec_rewards_before(a, gr), spec_rewards_before(b, gr)),
{
}

/// Two play profiles that reach cycles of the same reward through the same
/// rewards differ only by the length of the path to the cycle: when player 0
/// wins the cycle the shorter path is the better one, when player 1 wins it
/// the longer one is, and equal lengths compare equal.
pub proof fn profile_order_by_path_length<G: GetRelevance>(a: PlayProfile, b: PlayProfile, gr: &G)
    requires
        gr.spec_relevance_of(a.most_relevant).spec_reward() == gr.spec_relevance_of(b.most_relevant).spec_reward(),
        spec_rewards_before(a, gr) == spec_rewards_before(b, gr),
    ensures
        spec_winning(a, gr) == Player::P0 && a.count_before < b.count_before ==> profile_order(a, b, gr)
            == Ordering::Greater,
        spec_winning(a, gr) == Player::P0 && a.count_before > b.count_before ==> profile_order(a, b, gr)
            == Ordering::Less,
        spec_winning(a, gr) == Player::P1 && a.count_before < b.count_before ==> profile_order(a, b, gr)
            == Ordering::Less,
        spec_winning(a, gr) == Player::P1 && a.count_before > b.count_before ==> profile_order(a, b, gr)
            == Ordering::Greater,
        a.count_before == b.count_before ==> profile_order(a, b, gr) == Ordering::Equal,
{
    lemma_rewards_order_reflexive(spec_rewards_before(a, gr));
}

/// A play profile whose cycle has a larger reward is the better one, whatever
/// comes before the cycle.
pub proof fn profile_order_by_cycle<G: GetRelevance>(a: PlayProfile, b: PlayProfile, gr: &G)
    requires
        reward_lt(
            gr.spec_relevance_of(a.most_relevant).spec_reward(),
            gr.spec_relevance_of(b.most_relevant).spec_reward(),
        ),
    ensures
        profile_order(a, b, gr) == Ordering::Less,
{
}

/// Without the path length, play profiles compare first by the reward of their
/// cycle, then by the rewards before it, and those with the same of both are
/// equal whatever their path lengths.
pub proof fn profile_order_w_ignores_path_length<G: GetRelevance>(a: PlayProfile, b: PlayProfile, gr: &G)
    ensures
        reward_lt(
            gr.spec_relevance_of(a.most_relevant).spec_reward(),
            gr.spec_relevance_of(b.most_relevant).spec_reward(),
        ) ==> profile_order_w(a, b, gr) == Ordering::Less,
        gr.spec_relevance_of(a.most_relevant).spec_reward() == gr.spec_relevance_of(b.most_relevant).spec_reward()
            ==> profile_order_w(a, b, gr) == rewards_order(spec_rewards_before(a, gr), spec_rewards_before(b, gr)),
        gr.spec_relevance_of(a.most_relevant).spec_reward() == gr.spec_relevance_of(b.most_relevant).spec_reward()
            && spec_rewards_before(a, gr) == spec_rewards_before(b, gr) ==> profile_order_w(a, b, gr)
            == Ordering::Equal,
{
    lemma_rewards_order_reflexive(spec_rewards_before(a, gr));
}

/// Comparing a play profile with itself gives `Equal`.
pub proof fn profile_order_reflexive<G: GetRelevance>(a: PlayProfile, gr: &G)
    ensures
        profile_order(a, a, gr) == Ordering::Equal,
{
    lemma_rewards_order_reflexive(spec_rewards_before(a, gr));
}

/// Swapping the two play profiles reverses their comparison.
pub proof fn profile_order_antisymmetric<G: GetRelevance>(a: PlayProfile, b: PlayProfile, gr: &G)
    ensures
        profile_order(a, b, gr) == reversed(profile_order(b, a, gr)),
{
    lemma_rewards_order_antisymmetric(spec_rewards_before(a, gr), spec_rewards_before(b, gr));
}

/// The order of play profiles is transitive.
pub proof fn profile_order_transitive<G: GetRelevance>(
    a: PlayProfile,
    b: PlayProfile,
    c: PlayProfile,
    gr: &G,
)
    requires
        profile_order(a, b, gr) == Ordering::Less,
        profile_order(b, c, gr) == Ordering::Less,
    ensures
        profile_order(a, c, gr) == Ordering::Less,
{
    let (ra, rb, rc) = (spec_rewards_before(a, gr), spec_rewards_before(b, gr), spec_rewards_before(c, gr));
    if rewards_order(ra, rb) == Ordering::Equal {
        lemma_rewards_order_equal(ra, rb);
    }
    if rewards_order(rb, rc) == Ordering::Equal {
        lemma_rewards_order_equal(rb, rc);
    }
    if rewards_order(ra, rb) == Ordering::Less && rewards_order(rb, rc) == Ordering::Less {
        lemma_rewards_order_transitive(ra, rb, rc);
    }
}


/// Comparing a play profile with itself without the path length gives `Equal`.
pub proof fn profile_order_w_reflexive<G: GetRelevance>(a: PlayProfile, gr: &G)
    ensures
        profile_order_w(a, a, gr) == Ordering::Equal,
{
    lemma_rewards_order_reflexive(spec_rewards_before(a, gr));
}

/// Swapping the two play profiles reverses their comparison without the path
/// length.
pub proof fn profile_order_w_antisymmetric<G: GetRelevance>(a: PlayProfile, b: PlayProfile, gr: &G)
    ensures
        profile_order_w(a, b, gr) == reversed(profile_order_w(b, a, gr)),
{
    lemma_rewards_order_antisymmetric(spec_rewards_before(a, gr), spec_rewards_before(b, gr));
}

/// The order of play profiles without the path length is transitive.
pub proof fn profile_order_w_transitive<G: GetRelevance>(
    a: PlayProfile,
    b: PlayProfile,
    c: PlayProfile,
    gr: &G,
)
    requires
        profile_order_w(a, b, gr) == Ordering::Less,
        profile_order_w(b, c, gr) == Ordering::Less,
    ensures
        profile_order_w(a, c, gr) == Ordering::Less,
{
    let (ra, rb, rc) = (spec_rewards_before(a, gr), spec_rewards_before(b, gr), spec_rewards_before(c, gr));
    if rewards_order(ra, rb) == Ordering::Less && rewards_order(rb, rc) == Ordering::Less {
        lemma_rewards_order_transitive(ra, rb, rc);
    }
}

} // verus!
