//! Profiling of witness generation: a log of the starts and ends of machine
//! computations, and the time spent in each machine.
use vstd::prelude::*;

use crate::text::{str_eq, string_views};

verus! {

/// The kind of a logged event.
#[derive(Clone, Copy, Debug, PartialEq, Eq, Structural)]
pub enum Event {
    Start,
    End,
}

/// A logged event: its kind, the machine's id and the time in nanoseconds.
pub type LogEntry = (Event, usize, u64);

/// The machines being computed after the first `i` events of a log that starts
/// with a start event, innermost last.
pub open spec fn call_stack(e: Seq<LogEntry>, i: int) -> Seq<usize>
    decreases i,
{
    if i <= 1 {
        seq![e[0].1]
    } else {
        let s = call_stack(e, i - 1);
        if e[i - 1].0 == Event::Start {
            s.push(e[i - 1].1)
        } else {
            s.drop_last()
        }
    }
}

/// A log of nested computations: it starts with a start event; no event comes
/// when no machine runs; a machine does not start while it is the innermost one;
/// an end event ends the innermost machine; and at the end no machine runs.
pub open spec fn log_ok(e: Seq<LogEntry>) -> bool {
    &&& e.len() >= 1
    &&& e[0].0 == Event::Start
    &&& forall|i: int|
        1 <= i < e.len() ==> {
            &&& #[trigger] call_stack(e, i).len() > 0
            &&& e[i].0 == Event::Start ==> call_stack(e, i).last() != e[i].1
            &&& e[i].0 == Event::End ==> call_stack(e, i).last() == e[i].1
        }
    &&& call_stack(e, e.len() as int).len() == 0
}

/// The time between events `i - 1` and `i` is spent in machine `id`: it is the
/// innermost one, and the clock did not go back.
pub open spec fn credited(e: Seq<LogEntry>, i: int, id: usize) -> bool {
    call_stack(e, i).last() == id && e[i].2 >= e[i - 1].2
}

/// The time spent in machine `id` up to event `k`.
pub open spec fn machine_time(e: Seq<LogEntry>, id: usize, k: int) -> int
    decreases k,
{
    if k <= 1 {
        0
    } else {
        machine_time(e, id, k - 1) + if credited(e, k - 1, id) {
            e[k - 1].2 - e[k - 2].2
        } else {
            0
        }
    }
}

/// Whether some time up to event `k` was spent in machine `id`.
pub open spec fn ran(e: Seq<LogEntry>, id: usize, k: int) -> bool {
    exists|i: int| 1 <= i < k && #[trigger] credited(e, i, id)
}

/// The order of the summary: more time first, then the smaller id.
pub open spec fn comes_before(a: (usize, int), b: (usize, int)) -> bool {
    a.1 > b.1 || (a.1 == b.1 && a.0 < b.0)
}

/// The summary lists the machines that ran, each once, with its name and its
/// time, in the order `comes_before`.
pub open spec fn is_summary(
    e: Seq<LogEntry>,
    names: Seq<Seq<char>>,
    r: Seq<(String, u128)>,
    ids: Seq<usize>,
) -> bool {
    &&& ids.len() == r.len()
    &&& forall|k: int|
        0 <= k < ids.len() ==> {
            &&& ran(e, #[trigger] ids[k], e.len() as int)
            &&& ids[k] < names.len()
            &&& r[k].0@ == names[ids[k] as int]
            &&& r[k].1 == machine_time(e, ids[k], e.len() as int)
        }
    &&& forall|id: usize| ran(e, id, e.len() as int) ==> ids.contains(id)
    &&& forall|a: int, b: int|
        0 <= a < b < ids.len() ==> comes_before(
            (ids[a], machine_time(e, ids[a], e.len() as int)),
            (ids[b], machine_time(e, ids[b], e.len() as int)),
        )
}

proof fn lemma_stack_ids(e: Seq<LogEntry>, bound: int, i: int)
    requires
        1 <= i <= e.len(),
        log_ok(e),
        forall|j: int| 0 <= j < e.len() ==> #[trigger] e[j].1 < bound,
    ensures
        forall|j: int| 0 <= j < call_stack(e, i).len() ==> #[trigger] call_stack(e, i)[j] < bound,
    decreases i,
{
    if i > 1 {
        lemma_stack_ids(e, bound, i - 1);
        assert(e[i - 1].1 < bound);
        let st = call_stack(e, i - 1);
        if e[i - 1].0 == Event::Start {
            assert(call_stack(e, i) == st.push(e[i - 1].1));
            assert forall|j: int| 0 <= j < call_stack(e, i).len() implies #[trigger] call_stack(e, i)[j] < bound by {
                if j < st.len() {
                    assert(call_stack(e, i)[j] == st[j]);
                }
            }
        } else {
            assert(call_stack(e, i - 1).len() > 0);
            assert(call_stack(e, i) == st.drop_last());
            assert forall|j: int| 0 <= j < call_stack(e, i).len() implies #[trigger] call_stack(e, i)[j] < bound by {
                assert(call_stack(e, i)[j] == st[j]);
            }
        }
    }
}

/// Inserts `x`, whose id is new, at its place in a list kept in the order
/// `comes_before`.
fn insert_ordered(v: &mut Vec<(usize, u128)>, x: (usize, u128))
    requires
        forall|a: int, b: int|
            0 <= a < b < old(v)@.len() ==> comes_before(
                (old(v)@[a].0, old(v)@[a].1 as int),
                (old(v)@[b].0, old(v)@[b].1 as int),
            ),
        forall|a: int| 0 <= a < old(v)@.len() ==> old(v)@[a].0 != x.0,
    ensures
        forall|a: int, b: int|
            0 <= a < b < final(v)@.len() ==> comes_before(
                (final(v)@[a].0, final(v)@[a].1 as int),
                (final(v)@[b].0, final(v)@[b].1 as int),
            ),
        exists|p: int| 0 <= p <= old(v)@.len() && final(v)@ == old(v)@.insert(p, x),
{
    let mut p: usize = 0;
    while p < v.len() && (v[p].1 > x.1 || (v[p].1 == x.1 && v[p].0 < x.0))
        invariant
            p <= v@.len(),
            v@ == old(v)@,
            forall|a: int| 0 <= a < p ==> comes_before((v@[a].0, v@[a].1 as int), (x.0, x.1 as int)),
        decreases v@.len() - p,
    {
        p = p + 1;
    }
    proof {
        if p < v@.len() {
            assert(v@[p as int].0 != x.0);
            assert(comes_before((x.0, x.1 as int), (v@[p as int].0, v@[p as int].1 as int)));
        }
    }
    v.insert(p, x);
    proof {
        assert forall|a: int, b: int| 0 <= a < b < v@.len() implies comes_before(
            (v@[a].0, v@[a].1 as int),
            (v@[b].0, v@[b].1 as int),
        ) by {
            if a < p && b > p {
                assert(comes_before((v@[a].0, v@[a].1 as int), (x.0, x.1 as int)));
                assert(comes_before((x.0, x.1 as int), (v@[b].0, v@[b].1 as int))) by {
                    if b > p + 1 {
                        assert(comes_before((old(v)@[p as int].0, old(v)@[p as int].1 as int), (old(v)@[b - 1].0, old(v)@[b - 1].1 as int)));
                    }
                }
            } else if a == p && b > p + 1 {
                assert(comes_before((old(v)@[p as int].0, old(v)@[p as int].1 as int), (old(v)@[b - 1].0, old(v)@[b - 1].1 as int)));
            }
        }
    }
}

/// The event log and the ids given to machine names.
pub struct Profiler {
    names: Vec<String>,
    events: Vec<LogEntry>,
}

impl Profiler {
    /// The machine names; a machine's id is its position.
    pub closed spec fn names(&self) -> Seq<Seq<char>> {
        string_views(self.names@)
    }

    /// The logged events, oldest first.
    pub closed spec fn events(&self) -> Seq<LogEntry> {
        self.events@
    }

    /// The names are distinct and every logged id has a name.
    pub closed spec fn wf(&self) -> bool {
        &&& self.names().no_duplicates()
        &&& forall|i: int| 0 <= i < self.events@.len() ==> #[trigger] self.events@[i].1 < self.names@.len()
    }

    /// The id of `name` after a lookup: its position, or the next free id.
    pub open spec fn id_of(names: Seq<Seq<char>>, name: Seq<char>) -> int {
        if names.contains(name) {
            names.index_of(name)
        } else {
            names.len() as int
        }
    }

    /// The names after a lookup of `name`: unchanged, or with `name` added.
    pub open spec fn names_after(names: Seq<Seq<char>>, name: Seq<char>) -> Seq<Seq<char>> {
        if names.contains(name) {
            names
        } else {
            names.push(name)
        }
    }

    /// A profiler with no names and no events.
    pub fn new() -> (r: Profiler)
        ensures
            r.wf(),
            r.names() == Seq::<Seq<char>>::empty(),
            r.events() == Seq::<LogEntry>::empty(),
    {
        let r = Profiler { names: Vec::new(), events: Vec::new() };
        proof {
            assert(r.names() =~= Seq::<Seq<char>>::empty());
        }
        r
    }

    /// The id of a machine name, giving the name the next free id when it has none.
    fn id_from_name(&mut self, name: &str) -> (r: usize)
        requires
            old(self).wf(),
        ensures
            final(self).wf(),
            r == Self::id_of(old(self).names(), name@),
            final(self).names() == Self::names_after(old(self).names(), name@),
            final(self).events() == old(self).events(),
            r < final(self).names().len(),
    {
        let n = self.names.len();
        for i in 0..n
            invariant
                n == self.names@.len(),
                self.wf(),
                self.names() == old(self).names(),
                self.events() == old(self).events(),
                self.names().no_duplicates(),
                forall|j: int| 0 <= j < i ==> self.names()[j] != name@,
        {
            if str_eq(self.names[i].as_str(), name) {
                proof {
                    assert(self.names()[i as int] == name@);
                    assert(self.names().contains(name@));
                    let k = self.names().index_of(name@);
                    assert(self.names()[k] == name@);
                    if k != i {
                        assert(self.names()[k] != self.names()[i as int]);
                    }
                }
                return i;
            }
        }
        proof {
            assert(!self.names().contains(name@)) by {
                if self.names().contains(name@) {
                    let k = choose|k: int| 0 <= k < self.names().len() && self.names()[k] == name@;
                }
            }
        }
        let ghost old_names = self.names();
        self.names.push(String::from_str(name));
        proof {
            assert(self.names() =~= old_names.push(name@));
            assert forall|a: int, b: int|
                0 <= a < self.names().len() && 0 <= b < self.names().len() && a != b implies self.names()[a]
                != self.names()[b] by {
                if a < n && b < n {
                    assert(self.names()[a] == old_names[a]);
                    assert(self.names()[b] == old_names[b]);
                }
            }
            assert forall|i: int| 0 <= i < self.events@.len() implies #[trigger] self.events@[i].1 < self.names@.len() by {
                assert(old(self).events@[i] == self.events@[i]);
            }
        }
        n
    }

    fn record(&mut self, event: Event, name: &str, time: u64)
        requires
            old(self).wf(),
        ensures
            final(self).wf(),
            final(self).names() == Self::names_after(old(self).names(), name@),
            final(self).events() == old(self).events().push(
                (event, Self::id_of(old(self).names(), name@) as usize, time),
            ),
    {
        let id = self.id_from_name(name);
        let ghost before = self.events@;
        self.events.push((event, id, time));
        proof {
            assert forall|i: int| 0 <= i < self.events@.len() implies #[trigger] self.events@[i].1 < self.names@.len() by {
                if i < before.len() {
                    assert(self.events@[i] == before[i]);
                }
            }
        }
    }

    /// The number of logged events.
    pub fn event_count(&self) -> (r: usize)
        ensures
            r == self.events().len(),
    {
        self.events.len()
    }

    /// Logs the start of a computation of the machine `name` at `time` (in
    /// nanoseconds).
    pub fn record_start(&mut self, name: &str, time: u64)
        requires
            old(self).wf(),
        ensures
            final(self).wf(),
            final(self).names() == Self::names_after(old(self).names(), name@),
            final(self).events() == old(self).events().push(
                (Event::Start, Self::id_of(old(self).names(), name@) as usize, time),
            ),
    {
        self.record(Event::Start, name, time);
    }

    /// Logs the end of a computation of the machine `name` at `time` (in
    /// nanoseconds).
    pub fn record_end(&mut self, name: &str, time: u64)
        requires
            old(self).wf(),
        ensures
            final(self).wf(),
            final(self).names() == Self::names_after(old(self).names(), name@),
            final(self).events() == old(self).events().push(
                (Event::End, Self::id_of(old(self).names(), name@) as usize, time),
            ),
    {
        self.record(Event::End, name, time);
    }

    /// Empties the event log and returns the time spent in each machine that ran:
    /// between two consecutive events, the time goes to the innermost machine
    /// computing, unless the clock went back. The machines come with the most time
    /// first, machines with equal times by ascending id; the names stay.
    pub fn take_profile_summary(&mut self) -> (r: Vec<(String, u128)>)
        requires
            old(self).wf(),
            log_ok(old(self).events()),
        ensures
            final(self).wf(),
            final(self).names() == old(self).names(),
            final(self).events() == Seq::<LogEntry>::empty(),
            exists|ids: Seq<usize>| is_summary(old(self).events(), old(self).names(), r@, ids),
    {
        let ghost e = self.events@;
        let ghost names = self.names();
        let n = self.events.len();
        let m = self.names.len();
        let mut acc: Vec<Option<u128>> = Vec::new();
        for k in 0..m
            invariant
                acc@.len() == k,
                forall|j: int| 0 <= j < k ==> acc@[j] is None,
        {
            acc.push(None);
        }
        proof {
            lemma_stack_ids(e, m as int, 1);
        }
        let mut stack: Vec<usize> = Vec::new();
        stack.push(self.events[0].1);
        let mut current: u64 = self.events[0].2;
        proof {
            assert(stack@ =~= call_stack(e, 1));
            assert forall|id: usize| !ran(e, id, 1) by {}
        }
        let mut i: usize = 1;
        while i < n
            invariant
                1 <= i <= n,
                e == self.events@,
                n == e.len(),
                m == self.names@.len(),
                log_ok(e),
                forall|j: int| 0 <= j < e.len() ==> #[trigger] e[j].1 < m,
                stack@ == call_stack(e, i as int),
                forall|j: int| 0 <= j < stack@.len() ==> #[trigger] stack@[j] < m,
                current == e[i - 1].2,
                acc@.len() == m,
                forall|id: usize|
                    id < m ==> #[trigger] acc@[id as int] == if ran(e, id, i as int) {
                        Some(machine_time(e, id, i as int) as u128)
                    } else {
                        None
                    },
                forall|id: usize| 0 <= #[trigger] machine_time(e, id, i as int) <= (i - 1) * 0xffff_ffff_ffff_ffff,
                forall|id: usize| !ran(e, id, i as int) ==> #[trigger] machine_time(e, id, i as int) == 0,
            decreases n - i,
        {
            let ev = self.events[i].0;
            let id = self.events[i].1;
            let time = self.events[i].2;
            proof {
                assert(call_stack(e, i as int).len() > 0);
            }
            let top = stack[stack.len() - 1];
            proof {
                assert(top == call_stack(e, i as int).last());
                assert(top < m);
            }
            if time >= current {
                let d = (time - current) as u128;
                let t = match acc[top] {
                    Some(t) => {
                        proof {
                            assert(acc@[top as int] == Some(machine_time(e, top, i as int) as u128));
                            let mt = machine_time(e, top, i as int);
                            assert(mt <= (i - 1) * 0xffff_ffff_ffff_ffff);
                            assert((i - 1) * 0xffff_ffff_ffff_ffff + 0xffff_ffff_ffff_ffff <= 0xffff_ffff_ffff_ffff * 0xffff_ffff_ffff_ffff) by (nonlinear_arith)
                                requires i <= 0xffff_ffff_ffff_ffff;
                        }
                        t + d
                    },
                    None => d,
                };
                acc.set(top, Some(t));
            }
            proof {
                assert forall|k: usize| k < m implies #[trigger] acc@[k as int] == if ran(e, k, i + 1) {
                    Some(machine_time(e, k, i + 1) as u128)
                } else {
                    None
                } by {
                    assert(machine_time(e, k, i + 1) == machine_time(e, k, i as int) + if credited(e, i as int, k) {
                        e[i as int].2 - e[i - 1].2
                    } else {
                        0
                    });
                    if credited(e, i as int, k) {
                        assert(ran(e, k, i + 1));
                    } else {
                        assert(ran(e, k, i + 1) == ran(e, k, i as int)) by {
                            if ran(e, k, i + 1) {
                                let j = choose|j: int| 1 <= j < i + 1 && #[trigger] credited(e, j, k);
                                assert(j < i);
                            }
                        }
                    }
                }
                assert forall|k: usize| 0 <= #[trigger] machine_time(e, k, i + 1) <= i * 0xffff_ffff_ffff_ffff by {
                    assert(machine_time(e, k, i + 1) == machine_time(e, k, i as int) + if credited(e, i as int, k) {
                        e[i as int].2 - e[i - 1].2
                    } else {
                        0
                    });
                }
                assert forall|k: usize| !ran(e, k, i + 1) implies #[trigger] machine_time(e, k, i + 1) == 0 by {
                    assert(!credited(e, i as int, k));
                    assert(!ran(e, k, i as int)) by {
                        if ran(e, k, i as int) {
                            let j = choose|j: int| 1 <= j < i && #[trigger] credited(e, j, k);
                            assert(1 <= j < i + 1);
                        }
                    }
                    assert(machine_time(e, k, i + 1) == machine_time(e, k, i as int));
                }
            }
            current = time;
            match ev {
                Event::Start => {
                    stack.push(id);
                },
                Event::End => {
                    stack.pop();
                },
            }
            proof {
                assert(stack@ =~= call_stack(e, i + 1));
            }
            i = i + 1;
        }
        let mut order: Vec<(usize, u128)> = Vec::new();
        let mut id: usize = 0;
        proof {
            assert((n - 1) * 0xffff_ffff_ffff_ffff <= 0xffff_ffff_ffff_ffff * 0xffff_ffff_ffff_ffff) by (nonlinear_arith)
                requires n <= 0xffff_ffff_ffff_ffff;
        }
        while id < m
            invariant
                id <= m,
                n == e.len(),
                forall|k: usize| 0 <= #[trigger] machine_time(e, k, n as int) <= 0xffff_ffff_ffff_ffff * 0xffff_ffff_ffff_ffff,
                m == acc@.len(),
                m == self.names@.len(),
                forall|k: usize|
                    k < m ==> #[trigger] acc@[k as int] == if ran(e, k, n as int) {
                        Some(machine_time(e, k, n as int) as u128)
                    } else {
                        None
                    },
                forall|a: int, b: int|
                    0 <= a < b < order@.len() ==> comes_before(
                        (order@[a].0, order@[a].1 as int),
                        (order@[b].0, order@[b].1 as int),
                    ),
                forall|a: int| 0 <= a < order@.len() ==> #[trigger] order@[a].0 < id && acc@[order@[a].0 as int] == Some(order@[a].1),
                forall|k: usize| k < id && #[trigger] acc@[k as int] is Some ==> exists|a: int| 0 <= a < order@.len() && order@[a].0 == k,
            decreases m - id,
        {
            match acc[id] {
                Some(t) => {
                    let ghost before = order@;
                    insert_ordered(&mut order, (id, t));
                    proof {
                        let p = choose|p: int| 0 <= p <= before.len() && order@ == before.insert(p, (id, t));
                        assert forall|a: int| 0 <= a < order@.len() implies #[trigger] order@[a].0 < id + 1 && acc@[order@[a].0 as int] == Some(order@[a].1) by {
                            if a < p {
                                assert(order@[a] == before[a]);
                            } else if a > p {
                                assert(order@[a] == before[a - 1]);
                            }
                        }
                        assert forall|k: usize| k < id + 1 && #[trigger] acc@[k as int] is Some implies exists|a: int| 0 <= a < order@.len() && order@[a].0 == k by {
                            if k < id {
                                let a = choose|a: int| 0 <= a < before.len() && before[a].0 == k;
                                if a < p {
                                    assert(order@[a] == before[a]);
                                } else {
                                    assert(order@[a + 1] == before[a]);
                                }
                            } else {
                                assert(order@[p].0 == k);
                            }
                        }
                    }
                },
                None => {},
            }
            id = id + 1;
        }
        let mut out: Vec<(String, u128)> = Vec::new();
        let mut k: usize = 0;
        while k < order.len()
            invariant
                k <= order@.len(),
                m == self.names@.len(),
                names == string_views(self.names@),
                out@.len() == k,
                forall|a: int| 0 <= a < order@.len() ==> #[trigger] order@[a].0 < m,
                forall|a: int| 0 <= a < k ==> #[trigger] out@[a].0@ == names[order@[a].0 as int] && out@[a].1 == order@[a].1,
            decreases order@.len() - k,
        {
            let oid = order[k].0;
            let ghost before = out@;
            out.push((self.names[oid].clone(), order[k].1));
            proof {
                assert(names[oid as int] == self.names@[oid as int]@);
                assert forall|a: int| 0 <= a < k + 1 implies #[trigger] out@[a].0@ == names[order@[a].0 as int] && out@[a].1 == order@[a].1 by {
                    if a < k {
                        assert(out@[a] == before[a]);
                    }
                }
            }
            k = k + 1;
        }
        self.events = Vec::new();
        proof {
            let ids = order@.map_values(|p: (usize, u128)| p.0);
            lemma_stack_ids(e, m as int, n as int);
            assert forall|id: usize| ran(e, id, e.len() as int) implies ids.contains(id) by {
                let i = choose|i: int| 1 <= i < e.len() && #[trigger] credited(e, i, id);
                lemma_stack_ids(e, m as int, i);
                assert(call_stack(e, i).len() > 0);
                assert(call_stack(e, i)[call_stack(e, i).len() - 1] < m);
                assert(id < m);
                assert(acc@[id as int] is Some);
                let a = choose|a: int| 0 <= a < order@.len() && order@[a].0 == id as int;
                assert(ids[a] == id);
            }
            assert forall|k: int| 0 <= k < ids.len() implies {
                &&& ran(e, #[trigger] ids[k], e.len() as int)
                &&& ids[k] < names.len()
                &&& out@[k].0@ == names[ids[k] as int]
                &&& out@[k].1 == machine_time(e, ids[k], e.len() as int)
            } by {
                assert(order@[k].0 < m && acc@[order@[k].0 as int] == Some(order@[k].1));
                assert(ids[k] == order@[k].0);
                assert(0 <= machine_time(e, ids[k], n as int) <= 0xffff_ffff_ffff_ffff * 0xffff_ffff_ffff_ffff);
                assert(ran(e, ids[k], n as int));
            }
            assert forall|a: int, b: int| 0 <= a < b < ids.len() implies comes_before(
                (ids[a], machine_time(e, ids[a], e.len() as int)),
                (ids[b], machine_time(e, ids[b], e.len() as int)),
            ) by {
                assert(acc@[order@[a].0 as int] == Some(order@[a].1));
                assert(acc@[order@[b].0 as int] == Some(order@[b].1));
                assert(ids[a] == order@[a].0 && ids[b] == order@[b].0);
            }
            assert(is_summary(e, names, out@, ids));
            assert forall|i: int| 0 <= i < self.events@.len() implies #[trigger] self.events@[i].1 < self.names@.len() by {}
        }
        out
    }

    /// Whether the event log is one of nested computations (`log_ok`), which
    /// `take_profile_summary` needs.
    pub fn log_is_well_formed(&self) -> (r: bool)
        ensures
            r == log_ok(self.events()),
    {
        let ghost e = self.events@;
        let n = self.events.len();
        if n == 0 {
            return false;
        }
        if self.events[0].0 != Event::Start {
            return false;
        }
        let mut stack: Vec<usize> = Vec::new();
        stack.push(self.events[0].1);
        proof {
            assert(stack@ =~= call_stack(e, 1));
        }
        let mut i: usize = 1;
        while i < n
            invariant
                1 <= i <= n,
                e == self.events@,
                n == e.len(),
                e[0].0 == Event::Start,
                stack@ == call_stack(e, i as int),
                forall|j: int|
                    1 <= j < i ==> {
                        &&& #[trigger] call_stack(e, j).len() > 0
                        &&& e[j].0 == Event::Start ==> call_stack(e, j).last() != e[j].1
                        &&& e[j].0 == Event::End ==> call_stack(e, j).last() == e[j].1
                    },
            decreases n - i,
        {
            if stack.len() == 0 {
                return false;
            }
            let top = stack[stack.len() - 1];
            let ev = self.events[i].0;
            let id = self.events[i].1;
            match ev {
                Event::Start => {
                    if top == id {
                        return false;
                    }
                    stack.push(id);
                },
                Event::End => {
                    if top != id {
                        return false;
                    }
                    stack.pop();
                },
            }
            proof {
                assert(stack@ =~= call_stack(e, i + 1));
            }
            i = i + 1;
        }
        stack.len() == 0
    }
}


/// Looking a name up twice gives the same id, and the second lookup adds no name:
/// the start and the end of a computation of one machine carry one id.
pub proof fn law_id_is_stable(names: Seq<Seq<char>>, name: Seq<char>)
    ensures
        Profiler::id_of(Profiler::names_after(names, name), name) == Profiler::id_of(names, name),
        Profiler::names_after(Profiler::names_after(names, name), name) == Profiler::names_after(
            names,
            name,
        ),
        Profiler::names_after(names, name)[Profiler::id_of(names, name)] == name,
{
    let after = Profiler::names_after(names, name);
    if !names.contains(name) {
        assert(after[names.len() as int] == name);
        assert(after.contains(name));
        let k = after.index_of(name);
        assert(after[k] == name);
        assert(k == names.len()) by {
            if k < names.len() {
                assert(names[k] == name);
            }
        }
    } else {
        let k = names.index_of(name);
        assert(names[k] == name);
    }
}


/// The time from event `i - 1` to event `i`, or zero if the clock went back.
pub open spec fn step_time(e: Seq<LogEntry>, i: int) -> int {
    if e[i].2 >= e[i - 1].2 {
        e[i].2 - e[i - 1].2
    } else {
        0
    }
}

/// The time covered by the first `k` events; steps where the clock went back
/// count as zero.
pub open spec fn covered_time(e: Seq<LogEntry>, k: int) -> int
    decreases k,
{
    if k <= 1 {
        0
    } else {
        covered_time(e, k - 1) + step_time(e, k - 1)
    }
}

/// The time spent up to event `k` in the given machines together.
pub open spec fn total_of(e: Seq<LogEntry>, ids: Seq<usize>, k: int) -> int
    decreases ids.len(),
{
    if ids.len() == 0 {
        0
    } else {
        total_of(e, ids.drop_last(), k) + machine_time(e, ids.last(), k)
    }
}

/// The sum of the times of a summary.
pub open spec fn summary_total(r: Seq<(String, u128)>) -> int
    decreases r.len(),
{
    if r.len() == 0 {
        0
    } else {
        summary_total(r.drop_last()) + r.last().1
    }
}

proof fn lemma_total_zero(e: Seq<LogEntry>, ids: Seq<usize>)
    ensures
        total_of(e, ids, 1) == 0,
    decreases ids.len(),
{
    if ids.len() > 0 {
        lemma_total_zero(e, ids.drop_last());
    }
}

proof fn lemma_total_step(e: Seq<LogEntry>, ids: Seq<usize>, k: int)
    requires
        1 <= k,
        forall|a: int, b: int| 0 <= a < b < ids.len() ==> ids[a] != ids[b],
    ensures
        total_of(e, ids, k + 1) == total_of(e, ids, k) + if ids.contains(call_stack(e, k).last()) {
            step_time(e, k)
        } else {
            0
        },
    decreases ids.len(),
{
    if ids.len() > 0 {
        let pre = ids.drop_last();
        assert forall|a: int, b: int| 0 <= a < b < pre.len() implies pre[a] != pre[b] by {
            assert(pre[a] == ids[a] && pre[b] == ids[b]);
        }
        lemma_total_step(e, pre, k);
        let m = call_stack(e, k).last();
        if ids.last() == m {
            if pre.contains(m) {
                let j = choose|j: int| 0 <= j < pre.len() && pre[j] == m;
                assert(ids[j] == ids[ids.len() - 1]);
            }
            assert(ids[ids.len() - 1] == m);
        } else {
            if ids.contains(m) {
                let j = choose|j: int| 0 <= j < ids.len() && ids[j] == m;
                assert(pre[j] == m);
            }
            if pre.contains(m) {
                let j = choose|j: int| 0 <= j < pre.len() && pre[j] == m;
                assert(ids[j] == m);
            }
        }
    }
}

proof fn lemma_summary_total(e: Seq<LogEntry>, r: Seq<(String, u128)>, ids: Seq<usize>, n: int)
    requires
        ids.len() == r.len(),
        forall|k: int| 0 <= k < ids.len() ==> r[k].1 == machine_time(e, #[trigger] ids[k], n),
    ensures
        summary_total(r) == total_of(e, ids, n),
    decreases r.len(),
{
    if r.len() > 0 {
        let rp = r.drop_last();
        let ip = ids.drop_last();
        assert forall|k: int| 0 <= k < ip.len() implies rp[k].1 == machine_time(e, #[trigger] ip[k], n) by {
            assert(rp[k] == r[k] && ip[k] == ids[k]);
        }
        lemma_summary_total(e, rp, ip, n);
        assert(r.last() == r[r.len() - 1] && ids.last() == ids[ids.len() - 1]);
    }
}

/// The times of the events never decrease.
pub open spec fn clock_never_goes_back(e: Seq<LogEntry>) -> bool {
    forall|i: int| 1 <= i < e.len() ==> e[i - 1].2 <= #[trigger] e[i].2
}

proof fn lemma_covered_monotone(e: Seq<LogEntry>, k: int)
    requires
        1 <= k <= e.len(),
        clock_never_goes_back(e),
    ensures
        covered_time(e, k) == e[k - 1].2 - e[0].2,
    decreases k,
{
    if k > 1 {
        lemma_covered_monotone(e, k - 1);
    }
}

proof fn lemma_total_upto(
    e: Seq<LogEntry>,
    names: Seq<Seq<char>>,
    r: Seq<(String, u128)>,
    ids: Seq<usize>,
    k: int,
)
    requires
        1 <= k <= e.len(),
        log_ok(e),
        is_summary(e, names, r, ids),
        forall|a: int, b: int| 0 <= a < b < ids.len() ==> ids[a] != ids[b],
    ensures
        total_of(e, ids, k) == covered_time(e, k),
    decreases k,
{
    if k == 1 {
        lemma_total_zero(e, ids);
    } else {
        lemma_total_upto(e, names, r, ids, k - 1);
        lemma_total_step(e, ids, k - 1);
        let m = call_stack(e, k - 1).last();
        if e[k - 1].2 >= e[k - 2].2 {
            assert(credited(e, k - 1, m));
            assert(ran(e, m, e.len() as int));
            assert(ids.contains(m));
        }
    }
}

/// The summary accounts for all the time of the log: each step between two events
/// is credited to exactly one machine, so the times of the summary add up to the
/// time the log covers, which is the time from the first to the last event when the
/// clock never goes back.
pub proof fn law_profile_accounts_for_all_time(
    e: Seq<LogEntry>,
    names: Seq<Seq<char>>,
    r: Seq<(String, u128)>,
    ids: Seq<usize>,
)
    requires
        log_ok(e),
        is_summary(e, names, r, ids),
    ensures
        summary_total(r) == covered_time(e, e.len() as int),
        clock_never_goes_back(e) ==> summary_total(r) == e.last().2 - e[0].2,
{
    let n = e.len() as int;
    assert forall|a: int, b: int| 0 <= a < b < ids.len() implies ids[a] != ids[b] by {
        assert(comes_before(
            (ids[a], machine_time(e, ids[a], n)),
            (ids[b], machine_time(e, ids[b], n)),
        ));
    }
    lemma_total_upto(e, names, r, ids, n);
    assert forall|j: int| 0 <= j < ids.len() implies r[j].1 == machine_time(e, #[trigger] ids[j], n) by {}
    lemma_summary_total(e, r, ids, n);
    if clock_never_goes_back(e) {
        lemma_covered_monotone(e, n);
    }
}

} // verus!
