//! The bookkeeping between the chunks of a continuation run: how much of the full
//! trace is proven after a chunk, and which memory pages the next chunk touches.
use vstd::prelude::*;

verus! {

/// Pages are 1024 bytes long: an address belongs to page `address >> 10`.
pub open spec fn page_of(address: u64) -> u64 {
    address >> 10
}

/// The length of the full trace that is proven once the chunk with index
/// `chunk_index` ran: the first chunk proves all its rows, every later chunk all
/// rows after its start but one, because its first row was proven already.
pub open spec fn proven_after(proven_trace: u64, chunk_index: u64, num_rows: u64, start: u64) -> int {
    if chunk_index == 0 {
        proven_trace + num_rows
    } else {
        proven_trace + num_rows - start - 1
    }
}

/// The pages of the memory accesses, given as (step, address) pairs, whose step
/// lies in `[from, to)`.
pub open spec fn pages_in(accesses: Seq<(u64, u64)>, from: int, to: int) -> Set<u64> {
    Set::new(
        |p: u64|
            exists|i: int|
                0 <= i < accesses.len() && from <= #[trigger] accesses[i].0 < to && page_of(accesses[i].1)
                    == p,
    )
}

/// The accesses are ordered by their step.
pub open spec fn by_step(accesses: Seq<(u64, u64)>) -> bool {
    forall|i: int, j: int| 0 <= i <= j < accesses.len() ==> accesses[i].0 <= accesses[j].0
}

/// The values are strictly ascending.
pub open spec fn ascending(v: Seq<u64>) -> bool {
    forall|i: int, j: int| 0 <= i < j < v.len() ==> v[i] < v[j]
}

/// Inserts `x` into the strictly ascending `v` at its place; nothing happens when
/// `v` already holds it.
fn insert_page(v: &mut Vec<u64>, x: u64)
    requires
        ascending(old(v)@),
    ensures
        ascending(final(v)@),
        final(v)@.to_set() == old(v)@.to_set().insert(x),
{
    let mut p: usize = 0;
    while p < v.len() && v[p] < x
        invariant
            p <= v.len(),
            v@ == old(v)@,
            forall|j: int| 0 <= j < p ==> v@[j] < x,
        decreases v.len() - p,
    {
        p = p + 1;
    }
    if p < v.len() && v[p] == x {
        proof {
            assert(v@.to_set().insert(x) =~= v@.to_set());
        }
        return;
    }
    let ghost before = v@;
    v.insert(p, x);
    proof {
        assert forall|i: int, j: int| 0 <= i < j < v@.len() implies v@[i] < v@[j] by {
            if j < p {
                assert(v@[i] == before[i] && v@[j] == before[j]);
            } else if j == p {
                assert(v@[i] == before[i]);
            } else if i < p {
                assert(v@[i] == before[i] && v@[j] == before[j - 1]);
            } else if i == p {
                assert(v@[j] == before[j - 1]);
                assert(before[p as int] <= before[j - 1]);
            } else {
                assert(v@[i] == before[i - 1] && v@[j] == before[j - 1]);
            }
        }
        assert forall|y: u64| v@.to_set().contains(y) <==> before.to_set().insert(x).contains(y) by {
            if v@.to_set().contains(y) {
                let k = choose|k: int| 0 <= k < v@.len() && v@[k] == y;
                if k < p {
                    assert(before[k] == y);
                } else if k > p {
                    assert(before[k - 1] == y);
                }
            }
            if before.to_set().contains(y) && y != x {
                let k = choose|k: int| 0 <= k < before.len() && before[k] == y;
                if k < p {
                    assert(v@[k] == y);
                } else {
                    assert(v@[k + 1] == y);
                }
            }
            if y == x {
                assert(v@[p as int] == x);
            }
        }
        assert(v@.to_set() =~= before.to_set().insert(x));
    }
}

/// What follows a chunk of `chunk_len` rows that started at row `start` of its own
/// trace: `None` when the chunk was shorter than `num_rows`, so that the run is
/// done; otherwise the length of the full trace that is now proven and, in
/// ascending order, the pages accessed during the next `num_rows` steps, which the
/// next chunk needs as input.
pub fn next_chunk(
    proven_trace: u64,
    chunk_index: u64,
    num_rows: u64,
    start: u64,
    chunk_len: u64,
    accesses: &Vec<(u64, u64)>,
) -> (r: Option<(u64, Vec<u64>)>)
    requires
        by_step(accesses@),
        chunk_len >= num_rows && chunk_index != 0 ==> start < num_rows,
        chunk_len >= num_rows ==> proven_after(proven_trace, chunk_index, num_rows, start) + num_rows
            <= u64::MAX,
    ensures
        r is None <==> chunk_len < num_rows,
        r matches Some((proven, pages)) ==> {
            &&& proven == proven_after(proven_trace, chunk_index, num_rows, start)
            &&& ascending(pages@)
            &&& pages@.to_set() == pages_in(accesses@, proven as int, proven + num_rows)
        },
{
    if chunk_len < num_rows {
        return None;
    }
    let proven = if chunk_index == 0 {
        proven_trace + num_rows
    } else {
        proven_trace + num_rows - start - 1
    };
    let end = proven + num_rows;
    let mut pages: Vec<u64> = Vec::new();
    let n = accesses.len();
    let mut i: usize = 0;
    proof {
        assert(pages@.to_set() =~= pages_in(accesses@.take(0), proven as int, end as int));
        assert(accesses@.take(n as int) =~= accesses@);
    }
    while i < n
        invariant_except_break
            i <= n,
            n == accesses@.len(),
            accesses@.take(n as int) == accesses@,
            by_step(accesses@),
            ascending(pages@),
            pages@.to_set() == pages_in(accesses@.take(i as int), proven as int, end as int),
        ensures
            ascending(pages@),
            pages@.to_set() == pages_in(accesses@, proven as int, end as int),
        decreases n - i,
    {
        let (idx, address) = accesses[i];
        if idx >= end {
            proof {
                assert(pages_in(accesses@.take(i as int), proven as int, end as int) =~= pages_in(
                    accesses@,
                    proven as int,
                    end as int,
                )) by {
                    assert forall|p: u64|
                        pages_in(accesses@, proven as int, end as int).contains(p) implies pages_in(
                        accesses@.take(i as int),
                        proven as int,
                        end as int,
                    ).contains(p) by {
                        let k = choose|k: int|
                            0 <= k < accesses@.len() && proven <= #[trigger] accesses@[k].0 < end && page_of(
                                accesses@[k].1,
                            ) == p;
                        if k >= i {
                            assert(accesses@[i as int].0 <= accesses@[k].0);
                        }
                        assert(accesses@.take(i as int)[k] == accesses@[k]);
                    }
                    assert forall|p: u64|
                        pages_in(accesses@.take(i as int), proven as int, end as int).contains(
                            p,
                        ) implies pages_in(accesses@, proven as int, end as int).contains(p) by {
                        let k = choose|k: int|
                            0 <= k < i && proven <= #[trigger] accesses@.take(i as int)[k].0 < end
                                && page_of(accesses@.take(i as int)[k].1) == p;
                        assert(accesses@.take(i as int)[k] == accesses@[k]);
                    }
                }
            }
            break;
        }
        let ghost before = pages@;
        if idx >= proven {
            insert_page(&mut pages, address >> 10);
        }
        proof {
            let t0 = accesses@.take(i as int);
            let t1 = accesses@.take(i + 1);
            assert(t1[i as int] == (idx, address));
            assert forall|p: u64|
                #![trigger pages_in(t1, proven as int, end as int).contains(p)]
                pages_in(t1, proven as int, end as int).contains(p) <==> (pages_in(
                    t0,
                    proven as int,
                    end as int,
                ).contains(p) || (proven <= idx && page_of(address) == p)) by {
                if pages_in(t1, proven as int, end as int).contains(p) {
                    let k = choose|k: int|
                        0 <= k < t1.len() && proven <= #[trigger] t1[k].0 < end && page_of(t1[k].1) == p;
                    if k < i {
                        assert(t0[k] == t1[k]);
                    }
                }
                if pages_in(t0, proven as int, end as int).contains(p) {
                    let k = choose|k: int|
                        0 <= k < t0.len() && proven <= #[trigger] t0[k].0 < end && page_of(t0[k].1) == p;
                    assert(t1[k] == t0[k]);
                }
                if proven <= idx && page_of(address) == p {
                    assert(proven <= t1[i as int].0 < end);
                }
            }
            if idx >= proven {
                assert(pages@.to_set() =~= pages_in(t1, proven as int, end as int));
            } else {
                assert(pages@.to_set() =~= pages_in(t1, proven as int, end as int));
            }
        }
        i = i + 1;
    }
    Some((proven, pages))
}

/// The word stored at `address` in the memory snapshot, given as (address, word)
/// pairs: the first entry for the address, 0 when there is none.
pub open spec fn word_at(memory: Seq<(u64, u64)>, address: int) -> u64
    decreases memory.len(),
{
    if memory.len() == 0 {
        0
    } else if memory[0].0 == address {
        memory[0].1
    } else {
        word_at(memory.drop_first(), address)
    }
}

/// The inputs that describe one page: its start address, then its 256 words.
pub open spec fn page_input(memory: Seq<(u64, u64)>, page: u64) -> Seq<u64> {
    seq![(page * 1024) as u64] + Seq::new(256, |i: int| word_at(memory, page * 1024 + 4 * i))
}

/// The inputs of the pages, one after the other.
pub open spec fn pages_input(memory: Seq<(u64, u64)>, pages: Seq<u64>) -> Seq<u64>
    decreases pages.len(),
{
    if pages.len() == 0 {
        seq![]
    } else {
        pages_input(memory, pages.drop_last()) + page_input(memory, pages.last())
    }
}

/// A page whose words all have addresses that fit in 64 bits.
pub open spec fn page_fits(page: u64) -> bool {
    page * 1024 + 1020 <= u64::MAX
}

fn find_word(memory: &Vec<(u64, u64)>, address: u64) -> (r: u64)
    ensures
        r == word_at(memory@, address as int),
{
    let n = memory.len();
    proof {
        assert(memory@.skip(0) =~= memory@);
    }
    for i in 0..n
        invariant
            n == memory@.len(),
            word_at(memory@, address as int) == word_at(memory@.skip(i as int), address as int),
    {
        proof {
            assert(memory@.skip(i as int)[0] == memory@[i as int]);
            assert(memory@.skip(i as int).drop_first() =~= memory@.skip(i + 1));
        }
        if memory[i].0 == address {
            return memory[i].1;
        }
    }
    0
}

/// The inputs of the next chunk: the register values at the end of this chunk,
/// the number of accessed pages, and for each page its start address and its 256
/// words as the memory snapshot holds them (0 where it holds none).
pub fn chunk_inputs(registers: &Vec<u64>, pages: &Vec<u64>, memory: &Vec<(u64, u64)>) -> (r: Vec<u64>)
    requires
        forall|i: int| 0 <= i < pages@.len() ==> page_fits(#[trigger] pages@[i]),
    ensures
        r@ == registers@ + seq![pages@.len() as u64] + pages_input(memory@, pages@),
{
    let mut out: Vec<u64> = Vec::new();
    let nr = registers.len();
    for i in 0..nr
        invariant
            nr == registers@.len(),
            out@ == registers@.take(i as int),
    {
        out.push(registers[i]);
        proof {
            assert(registers@.take(i + 1) =~= registers@.take(i as int).push(registers@[i as int]));
        }
    }
    proof {
        assert(registers@.take(nr as int) =~= registers@);
    }
    out.push(pages.len() as u64);
    let ghost head = out@;
    let np = pages.len();
    proof {
        assert(pages@.take(0) =~= Seq::<u64>::empty());
        assert(out@ =~= head + pages_input(memory@, pages@.take(0)));
    }
    for j in 0..np
        invariant
            np == pages@.len(),
            forall|i: int| 0 <= i < pages@.len() ==> page_fits(#[trigger] pages@[i]),
            out@ == head + pages_input(memory@, pages@.take(j as int)),
    {
        let page = pages[j];
        proof {
            assert(page_fits(pages@[j as int]));
        }
        let start = page * 1024;
        let ghost before = out@;
        out.push(start);
        for i in 0..256u64
            invariant
                start == page * 1024,
                page_fits(page),
                out@ == before + seq![start] + Seq::new(i as nat, |k: int| word_at(memory@, page * 1024 + 4 * k)),
        {
            let w = find_word(memory, start + i * 4);
            out.push(w);
            proof {
                assert(out@ =~= before + seq![start] + Seq::new((i + 1) as nat, |k: int| word_at(memory@, page * 1024 + 4 * k)));
            }
        }
        proof {
            let t1 = pages@.take(j + 1);
            assert(t1.drop_last() =~= pages@.take(j as int));
            assert(t1.last() == page);
            assert(out@ =~= head + pages_input(memory@, t1));
        }
    }
    proof {
        assert(pages@.take(np as int) =~= pages@);
    }
    out
}

} // verus!
