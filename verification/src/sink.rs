//! Sink dispatch decisions: which blocks a sink is sent, when a sink run is
//! refused outright, and which nodes earned the highest reward.

use vstd::prelude::*;

use crate::types::Block;

verus! {

/// Why a sink run was refused.
#[derive(PartialEq, Eq, Structural, Debug, Clone, Copy)]
pub enum SinkError {
    /// The caller handed differing numbers of blocks and nodes.
    MismatchedCounts { blocks: usize, nodes: usize },
    /// The sink wants every node's block, and some are missing.
    NotEnoughBlocks { got: usize, total: usize },
    /// The sink wants all blocks built on one parent, and they are not.
    DifferentParents,
    /// The sink answered for a different number of blocks than was posted.
    BadResponseCount { got: usize, expected: usize },
}

/// What is posted to a sink: the surviving names, labels and blocks, in
/// input order.
pub struct PostSelection {
    pub names: Vec<Vec<u8>>,
    pub labels: Vec<Vec<u8>>,
    pub blocks: Vec<Block>,
}

/// The blocks present, in order.
pub open spec fn kept_blocks(opt: Seq<Option<Block>>) -> Seq<Block>
    decreases opt.len(),
{
    if opt.len() == 0 {
        Seq::empty()
    } else {
        match opt[0] {
            Some(b) => seq![b] + kept_blocks(opt.drop_first()),
            None => kept_blocks(opt.drop_first()),
        }
    }
}

/// The names whose node produced a block, in order.
pub open spec fn kept_names(
    nl: Seq<(Vec<u8>, Vec<u8>)>,
    opt: Seq<Option<Block>>,
) -> Seq<Vec<u8>>
    decreases opt.len(),
{
    if opt.len() == 0 || nl.len() == 0 {
        Seq::empty()
    } else {
        match opt[0] {
            Some(b) => seq![nl[0].0] + kept_names(nl.drop_first(), opt.drop_first()),
            None => kept_names(nl.drop_first(), opt.drop_first()),
        }
    }
}

/// The labels whose node produced a block, in order.
pub open spec fn kept_labels(
    nl: Seq<(Vec<u8>, Vec<u8>)>,
    opt: Seq<Option<Block>>,
) -> Seq<Vec<u8>>
    decreases opt.len(),
{
    if opt.len() == 0 || nl.len() == 0 {
        Seq::empty()
    } else {
        match opt[0] {
            Some(b) => seq![nl[0].1] + kept_labels(nl.drop_first(), opt.drop_first()),
            None => kept_labels(nl.drop_first(), opt.drop_first()),
        }
    }
}

/// All blocks build on the first one's parent.
pub open spec fn same_parents(bs: Seq<Block>) -> bool {
    forall|k: int| 0 <= k < bs.len() ==> (#[trigger] bs[k]).parent_root == bs[0].parent_root
}

/// Decide what a sink is sent: drop the nodes that produced nothing, refuse
/// the run if the sink demands completeness or a common parent and the
/// blocks do not deliver.
#[verifier::loop_isolation(false)]
pub fn prepare_post_blocks(
    names_and_labels: Vec<(Vec<u8>, Vec<u8>)>,
    opt_blocks: Vec<Option<Block>>,
    require_all: bool,
    require_same_parent: bool,
) -> (r: Result<PostSelection, SinkError>)
    ensures
        r.is_ok() <==> (names_and_labels@.len() == opt_blocks@.len() && (!require_all
            || kept_blocks(opt_blocks@).len() == opt_blocks@.len()) && (!require_same_parent
            || same_parents(kept_blocks(opt_blocks@)))),
        names_and_labels@.len() != opt_blocks@.len() ==> r == Err::<
            PostSelection,
            SinkError,
        >(
            SinkError::MismatchedCounts {
                blocks: opt_blocks@.len() as usize,
                nodes: names_and_labels@.len() as usize,
            },
        ),
        (names_and_labels@.len() == opt_blocks@.len() && require_all && kept_blocks(
            opt_blocks@,
        ).len() != opt_blocks@.len()) ==> r == Err::<
            PostSelection,
            SinkError,
        >(
            SinkError::NotEnoughBlocks {
                got: kept_blocks(opt_blocks@).len() as usize,
                total: opt_blocks@.len() as usize,
            },
        ),
        (names_and_labels@.len() == opt_blocks@.len() && (!require_all || kept_blocks(
            opt_blocks@,
        ).len() == opt_blocks@.len()) && require_same_parent && !same_parents(
            kept_blocks(opt_blocks@),
        )) ==> r == Err::<PostSelection, SinkError>(SinkError::DifferentParents),
        r matches Ok(sel) ==> sel.blocks@ == kept_blocks(opt_blocks@) && sel.names@ == kept_names(
            names_and_labels@,
            opt_blocks@,
        ) && sel.labels@ == kept_labels(names_and_labels@, opt_blocks@),
{
    let total_nodes = opt_blocks.len();
    if names_and_labels.len() != opt_blocks.len() {
        return Err(
            SinkError::MismatchedCounts { blocks: opt_blocks.len(), nodes: names_and_labels.len() },
        );
    }
    let ghost onl = names_and_labels@;
    let ghost oob = opt_blocks@;
    let mut nl = names_and_labels;
    let mut ob = opt_blocks;
    let mut names: Vec<Vec<u8>> = Vec::new();
    let mut labels: Vec<Vec<u8>> = Vec::new();
    let mut blocks: Vec<Block> = Vec::new();
    while ob.len() > 0
        invariant
            nl@.len() == ob@.len(),
            blocks@ + kept_blocks(ob@) == kept_blocks(oob),
            names@ + kept_names(nl@, ob@) == kept_names(onl, oob),
            labels@ + kept_labels(nl@, ob@) == kept_labels(onl, oob),
        decreases ob@.len(),
    {
        let ghost pnl = nl@;
        let ghost pob = ob@;
        let pair = nl.remove(0);
        let head = ob.remove(0);
        proof {
            assert(nl@ =~= pnl.drop_first());
            assert(ob@ =~= pob.drop_first());
        }
        match head {
            Some(b) => {
                let (name, label) = pair;
                names.push(name);
                labels.push(label);
                blocks.push(b);
                proof {
                    assert(blocks@ + kept_blocks(ob@) =~= blocks@.drop_last() + (seq![b]
                        + kept_blocks(pob.drop_first())));
                    assert(names@ + kept_names(nl@, ob@) =~= names@.drop_last() + (seq![pnl[0].0]
                        + kept_names(pnl.drop_first(), pob.drop_first())));
                    assert(labels@ + kept_labels(nl@, ob@) =~= labels@.drop_last() + (
                    seq![pnl[0].1] + kept_labels(pnl.drop_first(), pob.drop_first())));
                }
            },
            None => {},
        }
    }
    proof {
        assert(kept_blocks(ob@).len() == 0);
        assert(blocks@ + kept_blocks(ob@) =~= blocks@);
        assert(names@ + kept_names(nl@, ob@) =~= names@);
        assert(labels@ + kept_labels(nl@, ob@) =~= labels@);
    }
    if require_all && blocks.len() != total_nodes {
        return Err(SinkError::NotEnoughBlocks { got: blocks.len(), total: total_nodes });
    }
    if require_same_parent {
        let mut k: usize = 0;
        while k < blocks.len()
            invariant
                0 <= k <= blocks@.len(),
                forall|t: int|
                    0 <= t < k ==> (#[trigger] blocks@[t]).parent_root == blocks@[0].parent_root,
            decreases blocks@.len() - k,
        {
            if !(blocks[k].parent_root == blocks[0].parent_root) {
                return Err(SinkError::DifferentParents);
            }
            k += 1;
        }
    }
    Ok(PostSelection { names, labels, blocks })
}

/// The largest reward seen, zero when none was.
pub open spec fn max_reward(rewards: Seq<u64>) -> int
    decreases rewards.len(),
{
    if rewards.len() == 0 {
        0
    } else if rewards[0] >= max_reward(rewards.drop_first()) {
        rewards[0] as int
    } else {
        max_reward(rewards.drop_first())
    }
}

/// The names whose reward equals `m`, in order.
pub open spec fn reward_winners(names: Seq<Vec<u8>>, rewards: Seq<u64>, m: int) -> Seq<Vec<u8>>
    decreases rewards.len(),
{
    if rewards.len() == 0 || names.len() == 0 {
        Seq::empty()
    } else if rewards[0] == m {
        seq![names[0]] + reward_winners(names.drop_first(), rewards.drop_first(), m)
    } else {
        reward_winners(names.drop_first(), rewards.drop_first(), m)
    }
}

/// The highest reward any node earned, and every node that earned it.
#[verifier::loop_isolation(false)]
pub fn max_reward_nodes(names: Vec<Vec<u8>>, rewards: &Vec<u64>) -> (r: (u64, Vec<Vec<u8>>))
    requires
        names@.len() == rewards@.len(),
    ensures
        r.0 as int == max_reward(rewards@),
        r.1@ == reward_winners(names@, rewards@, r.0 as int),
{
    let ghost orew = rewards@;
    let ghost onames = names@;
    // first pass: the maximum
    let mut m: u64 = 0;
    let mut i: usize = 0;
    while i < rewards.len()
        invariant
            0 <= i <= rewards@.len(),
            m as int == max_reward(rewards@.take(i as int)) || (m == 0 && max_reward(
                rewards@.take(i as int),
            ) == 0),
            m as int <= max_reward(rewards@.take(i as int)) || m == 0,
            max_reward(rewards@.take(i as int)) <= m as int,
        decreases rewards@.len() - i,
    {
        proof {
            lemma_max_take_step(rewards@, i as int);
        }
        if rewards[i] > m {
            m = rewards[i];
        }
        i += 1;
    }
    proof {
        assert(rewards@.take(rewards@.len() as int) =~= rewards@);
    }
    // second pass: who achieved it
    let mut nm = names;
    let mut winners: Vec<Vec<u8>> = Vec::new();
    let mut k: usize = 0;
    while nm.len() > 0
        invariant
            nm@.len() + k == onames.len(),
            k <= rewards@.len(),
            onames.len() == rewards@.len(),
            rewards@ == orew,
            nm@ =~= onames.skip(k as int),
            winners@ + reward_winners(nm@, orew.skip(k as int), m as int) == reward_winners(
                onames,
                orew,
                m as int,
            ),
        decreases nm@.len(),
    {
        let ghost pn = nm@;
        let name = nm.remove(0);
        proof {
            assert(nm@ =~= pn.drop_first());
            assert(orew.skip(k as int).drop_first() =~= orew.skip(k + 1));
            assert(orew.skip(k as int)[0] == orew[k as int]);
        }
        if rewards[k] == m {
            winners.push(name);
            proof {
                assert(winners@ + reward_winners(nm@, orew.skip(k + 1), m as int)
                    =~= winners@.drop_last() + (seq![pn[0]] + reward_winners(
                    pn.drop_first(),
                    orew.skip(k + 1),
                    m as int,
                )));
            }
        }
        k += 1;
    }
    proof {
        assert(reward_winners(nm@, orew.skip(k as int), m as int).len() == 0);
        assert(winners@ + reward_winners(nm@, orew.skip(k as int), m as int) =~= winners@);
    }
    (m, winners)
}

/// Stepping the prefix bound extends the maximum by one candidate.
proof fn lemma_max_take_step(rewards: Seq<u64>, i: int)
    requires
        0 <= i < rewards.len(),
    ensures
        max_reward(rewards.take(i + 1)) == if rewards[i] as int > max_reward(rewards.take(i)) {
            rewards[i] as int
        } else {
            max_reward(rewards.take(i))
        },
{
    lemma_max_last(rewards.take(i + 1));
    assert(rewards.take(i + 1).drop_last() =~= rewards.take(i));
    assert(rewards.take(i + 1).last() == rewards[i]);
}

/// The maximum of a sequence is the maximum of its last element and the
/// rest.
proof fn lemma_max_last(s: Seq<u64>)
    requires
        s.len() > 0,
    ensures
        max_reward(s) == if s.last() as int > max_reward(s.drop_last()) {
            s.last() as int
        } else {
            max_reward(s.drop_last())
        },
    decreases s.len(),
{
    if s.len() > 1 {
        lemma_max_last(s.drop_first());
        assert(s.drop_first().drop_last() =~= s.drop_last().drop_first());
        assert(s.drop_first().last() == s.last());
        assert(s.drop_last()[0] == s[0]);
        assert(s.drop_last().len() > 0);
        let a = s[0] as int;
        let b = s.last() as int;
        let c = max_reward(s.drop_last().drop_first());
        assert(max_reward(s.drop_first()) == if b > c {
            b
        } else {
            c
        });
        assert(max_reward(s) == if a >= max_reward(s.drop_first()) {
            a
        } else {
            max_reward(s.drop_first())
        });
        assert(max_reward(s.drop_last()) == if a >= c {
            a
        } else {
            c
        });
    } else {
        assert(s.drop_last().len() == 0);
        assert(max_reward(s.drop_last()) == 0);
        assert(s.drop_first().len() == 0);
        assert(max_reward(s.drop_first()) == 0);
        assert(max_reward(s) == if s[0] as int >= 0 {
            s[0] as int
        } else {
            0
        });
    }
}

/// A sink must answer for exactly the number of blocks it was sent.
pub fn check_response_count(got: usize, expected: usize) -> (r: Result<(), SinkError>)
    ensures
        r.is_ok() <==> got == expected,
        got != expected ==> r == Err::<(), SinkError>(
            SinkError::BadResponseCount { got, expected },
        ),
{
    if got == expected {
        Ok(())
    } else {
        Err(SinkError::BadResponseCount { got, expected })
    }
}

} // verus!
