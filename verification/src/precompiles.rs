//! Choosing the basic blocks of a program that become automatic precompiles: each
//! block costs its size times how often it ran, and the costly blocks are selected.
use vstd::prelude::*;

use crate::text::{insert_sorted, str_eq, strictly_sorted, string_views};

verus! {

/// A basic block with its size, how often it ran and its cost.
pub struct BlockCost {
    pub name: String,
    pub size: u64,
    pub freq: u64,
    pub cost: u64,
}

/// The mathematical value of a `BlockCost`: name, size, frequency and cost.
pub type BlockCostV = (Seq<char>, u64, u64, u64);

impl View for BlockCost {
    type V = BlockCostV;

    open spec fn view(&self) -> BlockCostV {
        (self.name@, self.size, self.freq, self.cost)
    }
}

/// The views of a sequence of block costs.
pub open spec fn cost_views(v: Seq<BlockCost>) -> Seq<BlockCostV> {
    v.map_values(|c: BlockCost| c@)
}

/// How often the label ran: its first entry among the frequencies, or 0.
pub open spec fn freq_of(freqs: Seq<(String, u64)>, name: Seq<char>) -> u64
    decreases freqs.len(),
{
    if freqs.len() == 0 {
        0
    } else if freqs[0].0@ == name {
        freqs[0].1
    } else {
        freq_of(freqs.drop_first(), name)
    }
}

/// Every block's cost fits in 64 bits.
pub open spec fn costs_fit(blocks: Seq<(String, u64)>, freqs: Seq<(String, u64)>) -> bool {
    forall|i: int| 0 <= i < blocks.len() ==> freq_of(freqs, (#[trigger] blocks[i]).0@) * blocks[i].1 <= u64::MAX
}

/// The cost entry of a block.
pub open spec fn cost_entry(block: (String, u64), freqs: Seq<(String, u64)>) -> BlockCostV {
    let f = freq_of(freqs, block.0@);
    (block.0@, block.1, f, (f * block.1) as u64)
}

/// The cost entries of the blocks, in the blocks' order.
pub open spec fn cost_entries(blocks: Seq<(String, u64)>, freqs: Seq<(String, u64)>) -> Seq<BlockCostV> {
    blocks.map_values(|b: (String, u64)| cost_entry(b, freqs))
}

/// Where an entry of cost `c` goes in a list ordered by descending cost: after all
/// entries that cost at least as much.
pub open spec fn insert_pos(s: Seq<BlockCostV>, c: u64) -> int
    decreases s.len(),
{
    if s.len() == 0 {
        0
    } else if s[0].3 < c {
        0
    } else {
        1 + insert_pos(s.drop_first(), c)
    }
}

/// The entries ordered by descending cost; entries of equal cost keep their order.
pub open spec fn sort_desc(s: Seq<BlockCostV>) -> Seq<BlockCostV>
    decreases s.len(),
{
    if s.len() == 0 {
        s
    } else {
        let t = sort_desc(s.drop_last());
        t.insert(insert_pos(t, s.last().3), s.last())
    }
}

/// The names of the blocks that are worth a precompile: more than one statement
/// and a cost above 2.
pub open spec fn selected_names(costs: Seq<BlockCostV>) -> Set<Seq<char>> {
    Set::new(|n: Seq<char>| exists|i: int| 0 <= i < costs.len() && costs[i].0 == n && costs[i].1 > 1 && costs[i].3 > 2)
}

/// The sum of the costs.
pub open spec fn cost_sum(costs: Seq<BlockCostV>) -> int
    decreases costs.len(),
{
    if costs.len() == 0 {
        0
    } else {
        cost_sum(costs.drop_last()) + costs.last().3
    }
}

/// The sum of the costs of the blocks whose names are not in `selected`.
pub open spec fn unselected_sum(costs: Seq<BlockCostV>, selected: Set<Seq<char>>) -> int
    decreases costs.len(),
{
    if costs.len() == 0 {
        0
    } else {
        unselected_sum(costs.drop_last(), selected) + if selected.contains(costs.last().0) {
            0
        } else {
            costs.last().3 as int
        }
    }
}

/// How often the label ran.
fn find_freq(freqs: &Vec<(String, u64)>, name: &String) -> (r: u64)
    ensures
        r == freq_of(freqs@, name@),
{
    let n = freqs.len();
    proof {
        assert(freqs@.skip(0) =~= freqs@);
    }
    for i in 0..n
        invariant
            n == freqs@.len(),
            freq_of(freqs@, name@) == freq_of(freqs@.skip(i as int), name@),
    {
        proof {
            assert(freqs@.skip(i as int)[0] == freqs@[i as int]);
            assert(freqs@.skip(i as int).drop_first() =~= freqs@.skip(i + 1));
        }
        if str_eq(freqs[i].0.as_str(), name.as_str()) {
            return freqs[i].1;
        }
    }
    proof {
        assert(freqs@.skip(n as int) =~= Seq::<(String, u64)>::empty());
    }
    0
}

proof fn lemma_insert_pos(s: Seq<BlockCostV>, c: u64, p: int)
    requires
        0 <= p <= s.len(),
        forall|j: int| 0 <= j < p ==> s[j].3 >= c,
        p < s.len() ==> s[p].3 < c,
    ensures
        insert_pos(s, c) == p,
    decreases p,
{
    if p > 0 {
        lemma_insert_pos(s.drop_first(), c, p - 1);
    }
}

/// The blocks with their frequencies and costs, ordered by descending cost; blocks
/// of equal cost keep their order.
pub fn block_costs(blocks: &Vec<(String, u64)>, label_freq: &Vec<(String, u64)>) -> (r: Vec<BlockCost>)
    requires
        costs_fit(blocks@, label_freq@),
    ensures
        cost_views(r@) == sort_desc(cost_entries(blocks@, label_freq@)),
{
    let ghost entries = cost_entries(blocks@, label_freq@);
    let mut sorted: Vec<BlockCost> = Vec::new();
    let n = blocks.len();
    proof {
        assert(entries.take(0) =~= Seq::<BlockCostV>::empty());
        assert(cost_views(sorted@) =~= Seq::<BlockCostV>::empty());
    }
    for i in 0..n
        invariant
            n == blocks@.len(),
            entries == cost_entries(blocks@, label_freq@),
            costs_fit(blocks@, label_freq@),
            cost_views(sorted@) == sort_desc(entries.take(i as int)),
    {
        let name = &blocks[i].0;
        let size = blocks[i].1;
        let freq = find_freq(label_freq, name);
        proof {
            assert(freq * size <= u64::MAX);
        }
        let cost = freq * size;
        let c = BlockCost { name: name.clone(), size, freq, cost };
        let ghost t = cost_views(sorted@);
        let mut p: usize = 0;
        while p < sorted.len() && sorted[p].cost >= cost
            invariant
                p <= sorted@.len(),
                t == cost_views(sorted@),
                forall|j: int| 0 <= j < p ==> t[j].3 >= cost,
            decreases sorted@.len() - p,
        {
            p = p + 1;
        }
        proof {
            lemma_insert_pos(t, cost, p as int);
            assert(entries.take(i + 1).drop_last() =~= entries.take(i as int));
            assert(entries.take(i + 1).last() == c@);
        }
        sorted.insert(p, c);
        proof {
            assert(cost_views(sorted@) =~= t.insert(p as int, c@));
        }
    }
    proof {
        assert(entries.take(n as int) =~= entries);
    }
    sorted
}

/// The names of the blocks worth a precompile, in ascending order.
pub fn select_blocks(costs: &Vec<BlockCost>) -> (r: Vec<String>)
    ensures
        strictly_sorted(string_views(r@)),
        string_views(r@).to_set() == selected_names(cost_views(costs@)),
{
    let ghost cv = cost_views(costs@);
    let mut names: Vec<String> = Vec::new();
    let n = costs.len();
    proof {
        assert(string_views(names@).to_set() =~= Set::<Seq<char>>::empty());
        assert(selected_names(cv.take(0)) =~= Set::<Seq<char>>::empty());
    }
    for i in 0..n
        invariant
            n == costs@.len(),
            cv == cost_views(costs@),
            strictly_sorted(string_views(names@)),
            string_views(names@).to_set() == selected_names(cv.take(i as int)),
    {
        let ghost pre = cv.take(i as int);
        let ghost now = cv.take(i + 1);
        proof {
            assert(now[i as int] == cv[i as int]);
            assert forall|k: int| 0 <= k < i implies now[k] == pre[k] by {}
        }
        if costs[i].size > 1 && costs[i].cost > 2 {
            insert_sorted(&mut names, costs[i].name.clone());
            proof {
                assert(string_views(names@).to_set() =~= selected_names(now)) by {
                    assert forall|x: Seq<char>| selected_names(now).contains(x) implies string_views(names@).to_set().contains(x) by {
                        let k = choose|k: int| 0 <= k < now.len() && now[k].0 == x && now[k].1 > 1 && now[k].3 > 2;
                        if k < i {
                            assert(selected_names(pre).contains(x));
                        }
                    }
                    assert forall|x: Seq<char>| string_views(names@).to_set().contains(x) implies selected_names(now).contains(x) by {
                        if x != costs@[i as int].name@ {
                            assert(selected_names(pre).contains(x));
                            let k = choose|k: int| 0 <= k < pre.len() && pre[k].0 == x && pre[k].1 > 1 && pre[k].3 > 2;
                            assert(now[k] == pre[k]);
                        } else {
                            assert(now[i as int].0 == x);
                        }
                    }
                }
            }
        } else {
            proof {
                assert(string_views(names@).to_set() =~= selected_names(now)) by {
                    assert forall|x: Seq<char>| selected_names(now).contains(x) implies selected_names(pre).contains(x) by {
                        let k = choose|k: int| 0 <= k < now.len() && now[k].0 == x && now[k].1 > 1 && now[k].3 > 2;
                        assert(k != i);
                        assert(pre[k] == now[k]);
                    }
                    assert forall|x: Seq<char>| selected_names(pre).contains(x) implies selected_names(now).contains(x) by {
                        let k = choose|k: int| 0 <= k < pre.len() && pre[k].0 == x && pre[k].1 > 1 && pre[k].3 > 2;
                        assert(now[k] == pre[k]);
                    }
                }
            }
        }
    }
    proof {
        assert(cv.take(n as int) =~= cv);
    }
    names
}

/// The total cost of the blocks.
pub fn total_cost(costs: &Vec<BlockCost>) -> (r: u64)
    requires
        cost_sum(cost_views(costs@)) <= u64::MAX,
    ensures
        r == cost_sum(cost_views(costs@)),
{
    let ghost cv = cost_views(costs@);
    let mut sum: u64 = 0;
    let n = costs.len();
    proof {
        assert(cv.take(0) =~= Seq::<BlockCostV>::empty());
        lemma_cost_sum_prefix(cv);
    }
    for i in 0..n
        invariant
            n == costs@.len(),
            cv == cost_views(costs@),
            sum == cost_sum(cv.take(i as int)),
            forall|k: int| 0 <= k <= cv.len() ==> cost_sum(#[trigger] cv.take(k)) <= cost_sum(cv),
            cost_sum(cv) <= u64::MAX,
    {
        proof {
            assert(cv.take(i + 1).drop_last() =~= cv.take(i as int));
            assert(cv.take(i + 1).last() == cv[i as int]);
            assert(cost_sum(cv.take(i + 1)) <= cost_sum(cv));
        }
        sum = sum + costs[i].cost;
    }
    proof {
        assert(cv.take(n as int) =~= cv);
    }
    sum
}

proof fn lemma_cost_sum_prefix(cv: Seq<BlockCostV>)
    ensures
        forall|k: int| 0 <= k <= cv.len() ==> cost_sum(#[trigger] cv.take(k)) <= cost_sum(cv),
    decreases cv.len(),
{
    assert(cv.take(cv.len() as int) =~= cv);
    if cv.len() > 0 {
        let pre = cv.drop_last();
        lemma_cost_sum_prefix(pre);
        assert forall|k: int| 0 <= k <= cv.len() implies cost_sum(#[trigger] cv.take(k)) <= cost_sum(cv) by {
            if k < cv.len() {
                assert(pre.take(k) =~= cv.take(k));
            }
        }
    }
}

proof fn lemma_unselected_le_total(cv: Seq<BlockCostV>, sel: Set<Seq<char>>)
    ensures
        0 <= unselected_sum(cv, sel) <= cost_sum(cv),
    decreases cv.len(),
{
    if cv.len() > 0 {
        lemma_unselected_le_total(cv.drop_last(), sel);
    }
}

/// The total cost of the blocks that were not selected.
pub fn unselected_cost(costs: &Vec<BlockCost>, selected: &Vec<String>) -> (r: u64)
    requires
        cost_sum(cost_views(costs@)) <= u64::MAX,
    ensures
        r == unselected_sum(cost_views(costs@), string_views(selected@).to_set()),
{
    let ghost cv = cost_views(costs@);
    let ghost sel = string_views(selected@).to_set();
    let mut sum: u64 = 0;
    let n = costs.len();
    proof {
        assert(cv.take(0) =~= Seq::<BlockCostV>::empty());
    }
    for i in 0..n
        invariant
            n == costs@.len(),
            cv == cost_views(costs@),
            sel == string_views(selected@).to_set(),
            sum == unselected_sum(cv.take(i as int), sel),
            cost_sum(cv) <= u64::MAX,
    {
        proof {
            assert(cv.take(i + 1).drop_last() =~= cv.take(i as int));
            assert(cv.take(i + 1).last() == cv[i as int]);
            lemma_unselected_le_total(cv.take(i + 1), sel);
            lemma_cost_sum_prefix(cv);
            assert(cost_sum(cv.take(i + 1)) <= cost_sum(cv));
        }
        let name = &costs[i].name;
        let mut found = false;
        for k in 0..selected.len()
            invariant
                found <==> exists|j: int| 0 <= j < k && selected@[j]@ == name@,
        {
            if str_eq(selected[k].as_str(), name.as_str()) {
                found = true;
            }
        }
        proof {
            if found {
                let j = choose|j: int| 0 <= j < selected@.len() && selected@[j]@ == name@;
                assert(string_views(selected@)[j] == name@);
                assert(sel.contains(name@));
            } else {
                if sel.contains(name@) {
                    let j = choose|j: int| 0 <= j < string_views(selected@).len() && string_views(selected@)[j] == name@;
                    assert(selected@[j]@ == name@);
                }
            }
        }
        if !found {
            sum = sum + costs[i].cost;
        }
    }
    proof {
        assert(cv.take(n as int) =~= cv);
    }
    sum
}

/// The entries of cost `c`, in their order.
pub open spec fn with_cost(s: Seq<BlockCostV>, c: u64) -> Seq<BlockCostV> {
    s.filter(cost_is(c))
}

/// Whether an entry costs `c`.
pub open spec fn cost_is(c: u64) -> spec_fn(BlockCostV) -> bool {
    |x: BlockCostV| x.3 == c
}

/// Ordering by descending cost keeps every block exactly once, puts costlier
/// blocks first, and leaves blocks of equal cost in the order they came in.
pub proof fn law_costs_are_sorted(s: Seq<BlockCostV>)
    ensures
        sort_desc(s).to_multiset() == s.to_multiset(),
        forall|i: int, j: int| 0 <= i < j < sort_desc(s).len() ==> sort_desc(s)[i].3 >= sort_desc(s)[j].3,
        forall|c: u64| #[trigger] with_cost(sort_desc(s), c) == with_cost(s, c),
    decreases s.len(),
{
    if s.len() == 0 {
        return;
    }
    if s.len() > 0 {
        let pre = s.drop_last();
        law_costs_are_sorted(pre);
        let t = sort_desc(pre);
        let x = s.last();
        let p = insert_pos(t, x.3);
        lemma_insert_pos_bounds(t, x.3);
        vstd::seq_lib::to_multiset_insert(t, p, x);
        pre.to_multiset_ensures();
        assert(pre.push(x) =~= s);
        let r = t.insert(p, x);
        assert forall|i: int, j: int| 0 <= i < j < r.len() implies r[i].3 >= r[j].3 by {
            if j < p {
                assert(r[i] == t[i] && r[j] == t[j]);
            } else if j == p {
                assert(r[i] == t[i]);
            } else if i < p {
                assert(r[i] == t[i] && r[j] == t[j - 1]);
                assert(t[j - 1].3 <= t[p].3 || j - 1 == p);
            } else if i == p {
                assert(r[j] == t[j - 1]);
                assert(t[j - 1].3 <= t[p].3 || j - 1 == p);
            } else {
                assert(r[i] == t[i - 1] && r[j] == t[j - 1]);
            }
        }
        assert forall|c: u64| #[trigger] with_cost(r, c) == with_cost(s, c) by {
            lemma_with_cost_insert(t, p, x, c);
            pre.lemma_filter_push(x, cost_is(c));
            assert(with_cost(t, c) == with_cost(pre, c));
        }
    }
}

/// Inserting `x` at the place `insert_pos` chooses in a list ordered by
/// descending cost adds `x` at the end of the entries of its cost.
proof fn lemma_with_cost_insert(t: Seq<BlockCostV>, p: int, x: BlockCostV, c: u64)
    requires
        p == insert_pos(t, x.3),
        forall|i: int, j: int| 0 <= i < j < t.len() ==> t[i].3 >= t[j].3,
    ensures
        with_cost(t.insert(p, x), c) == if x.3 == c {
            with_cost(t, c).push(x)
        } else {
            with_cost(t, c)
        },
{
    lemma_insert_pos_bounds(t, x.3);
    let pred = cost_is(c);
    let a = t.take(p);
    let b = t.skip(p);
    assert(t =~= a + b);
    assert(t.insert(p, x) =~= (a + seq![x]) + b);
    Seq::filter_distributes_over_add(a, b, pred);
    Seq::filter_distributes_over_add(a + seq![x], b, pred);
    Seq::filter_distributes_over_add(a, seq![x], pred);
    reveal_with_fuel(Seq::filter, 2);
    assert(seq![x].drop_last() =~= Seq::<BlockCostV>::empty());
    if x.3 == c {
        assert forall|k: int| 0 <= k < b.len() implies !pred(#[trigger] b[k]) by {
            assert(b[k] == t[p + k]);
            if k > 0 {
                assert(t[p].3 >= t[p + k].3);
            }
        }
        assert(b.all(|y: BlockCostV| !pred(y)));
        b.lemma_all_neg_filter_empty(pred);
        assert(b.filter(pred) =~= Seq::<BlockCostV>::empty());
        assert(seq![x].filter(pred) =~= seq![x]);
        assert(a.filter(pred) + b.filter(pred) =~= a.filter(pred));
        assert((a.filter(pred) + seq![x]) + b.filter(pred) =~= a.filter(pred).push(x));
    } else {
        assert(seq![x].filter(pred) =~= Seq::<BlockCostV>::empty());
        assert(a.filter(pred) + Seq::<BlockCostV>::empty() =~= a.filter(pred));
    }
}

proof fn lemma_insert_pos_bounds(t: Seq<BlockCostV>, c: u64)
    ensures
        0 <= insert_pos(t, c) <= t.len(),
        forall|j: int| 0 <= j < insert_pos(t, c) ==> t[j].3 >= c,
        insert_pos(t, c) < t.len() ==> t[insert_pos(t, c)].3 < c,
    decreases t.len(),
{
    if t.len() > 0 && t[0].3 >= c {
        lemma_insert_pos_bounds(t.drop_first(), c);
        assert forall|j: int| 0 <= j < insert_pos(t, c) implies t[j].3 >= c by {
            if j > 0 {
                assert(t[j] == t.drop_first()[j - 1]);
            }
        }
    }
}

} // verus!
