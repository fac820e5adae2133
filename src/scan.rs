use vstd::prelude::*;

use crate::cidr::IpAddress;
use crate::order::{lemma_lex_total, lemma_lex_transitive, lemma_sorted_unique, lex_less, lex_lt, sorted_distinct};

verus! {

/// One connection attempt: a host and a port.
#[derive(Clone, Copy, Debug, PartialEq, Eq, Structural)]
pub struct Probe {
    pub host: IpAddress,
    pub port: u16,
}

/// The probes for `host` on each of `ports`, in port order.
pub open spec fn probes_for(host: IpAddress, ports: Seq<u16>) -> Seq<Probe> {
    ports.map_values(|p: u16| Probe { host, port: p })
}

/// Every (host, port) pair: hosts in order, and for each host the ports in order.
pub open spec fn plan_of(hosts: Seq<IpAddress>, ports: Seq<u16>) -> Seq<Probe>
    decreases hosts.len(),
{
    if hosts.len() == 0 {
        Seq::empty()
    } else {
        plan_of(hosts.drop_last(), ports) + probes_for(hosts.last(), ports)
    }
}

/// The plan holds `|hosts| * |ports|` probes, and a probe is in it exactly when
/// its host is one of `hosts` and its port one of `ports`.
pub proof fn lemma_plan_shape(hosts: Seq<IpAddress>, ports: Seq<u16>)
    ensures
        plan_of(hosts, ports).len() == hosts.len() * ports.len(),
        forall|p: Probe|
            plan_of(hosts, ports).contains(p) <==> (hosts.contains(p.host) && ports.contains(
                p.port,
            )),
    decreases hosts.len(),
{
    if hosts.len() > 0 {
        let init = hosts.drop_last();
        lemma_plan_shape(init, ports);
        assert(plan_of(hosts, ports).len() == hosts.len() * ports.len()) by (nonlinear_arith)
            requires
                plan_of(hosts, ports).len() == plan_of(init, ports).len() + ports.len(),
                plan_of(init, ports).len() == init.len() * ports.len(),
                init.len() + 1 == hosts.len(),
        ;
        let left = plan_of(init, ports);
        let right = probes_for(hosts.last(), ports);
        assert forall|p: Probe|
            plan_of(hosts, ports).contains(p) <==> (hosts.contains(p.host) && ports.contains(
                p.port,
            )) by {
            let whole = plan_of(hosts, ports);
            if whole.contains(p) {
                let k = choose|k: int| 0 <= k < whole.len() && whole[k] == p;
                if k < left.len() {
                    assert(left[k] == p);
                    assert(left.contains(p));
                    let j = choose|j: int| 0 <= j < init.len() && init[j] == p.host;
                    assert(hosts[j] == p.host);
                } else {
                    assert(right[k - left.len()] == p);
                    assert(ports[k - left.len()] == p.port);
                    assert(hosts[hosts.len() - 1] == p.host);
                }
            }
            if hosts.contains(p.host) && ports.contains(p.port) {
                let j = choose|j: int| 0 <= j < hosts.len() && hosts[j] == p.host;
                let m = choose|m: int| 0 <= m < ports.len() && ports[m] == p.port;
                if j < init.len() {
                    assert(init[j] == p.host);
                    assert(init.contains(p.host));
                    assert(ports.contains(p.port));
                    assert(left.contains(p));
                    let k = choose|k: int| 0 <= k < left.len() && left[k] == p;
                    assert(whole[k] == p);
                } else {
                    assert(right[m] == p);
                    assert(whole[left.len() + m] == p);
                }
            }
        }
    }
}

/// The ports of `s`, each once, at its first position.
pub open spec fn first_occurrences(s: Seq<u16>) -> Seq<u16>
    decreases s.len(),
{
    if s.len() == 0 {
        Seq::empty()
    } else {
        let d = first_occurrences(s.drop_last());
        if d.contains(s.last()) {
            d
        } else {
            d.push(s.last())
        }
    }
}

/// The list without repeats keeps every port of `s` and no other.
pub proof fn lemma_first_occurrences(s: Seq<u16>)
    ensures
        first_occurrences(s).no_duplicates(),
        forall|p: u16| first_occurrences(s).contains(p) <==> s.contains(p),
    decreases s.len(),
{
    if s.len() > 0 {
        let init = s.drop_last();
        lemma_first_occurrences(init);
        let d = first_occurrences(init);
        assert forall|p: u16| first_occurrences(s).contains(p) <==> s.contains(p) by {
            if s.contains(p) {
                let k = choose|k: int| 0 <= k < s.len() && s[k] == p;
                if k < init.len() {
                    assert(init[k] == p);
                }
            }
            if init.contains(p) {
                let k = choose|k: int| 0 <= k < init.len() && init[k] == p;
                assert(s[k] == p);
            }
            if !d.contains(s.last()) {
                assert(d.push(s.last())[d.len() as int] == s.last());
                if d.contains(p) {
                    let k = choose|k: int| 0 <= k < d.len() && d[k] == p;
                    assert(d.push(s.last())[k] == p);
                }
                if d.push(s.last()).contains(p) {
                    let k = choose|k: int| 0 <= k < d.len() + 1 && d.push(s.last())[k] == p;
                    if k < d.len() {
                        assert(d[k] == p);
                    }
                }
            }
        }
    }
}

/// Drops the repeats from a list of ports, keeping the first of each.
pub fn distinct_ports(ports: &Vec<u16>) -> (r: Vec<u16>)
    ensures
        r@ == first_occurrences(ports@),
        r@.no_duplicates(),
        forall|p: u16| r@.contains(p) <==> ports@.contains(p),
{
    proof {
        lemma_first_occurrences(ports@);
    }
    let mut r: Vec<u16> = Vec::new();
    let mut i: usize = 0;
    assert(ports@.take(0) =~= Seq::<u16>::empty());
    while i < ports.len()
        invariant
            i <= ports@.len(),
            r@ == first_occurrences(ports@.take(i as int)),
        decreases ports@.len() - i,
    {
        let p = ports[i];
        let mut j: usize = 0;
        while j < r.len() && r[j] != p
            invariant
                j <= r@.len(),
                forall|k: int| 0 <= k < j ==> r@[k] != p,
            decreases r@.len() - j,
        {
            j = j + 1;
        }
        assert(ports@.take(i + 1).drop_last() =~= ports@.take(i as int));
        assert(ports@.take(i + 1).last() == p);
        if j == r.len() {
            r.push(p);
        } else {
            assert(r@[j as int] == p);
        }
        i = i + 1;
    }
    assert(ports@.take(i as int) =~= ports@);
    r
}

/// Lists every (host, port) probe, hosts in order and ports in order within
/// each host.
pub fn probe_plan(hosts: &Vec<IpAddress>, ports: &Vec<u16>) -> (r: Vec<Probe>)
    requires
        hosts@.len() * ports@.len() <= usize::MAX,
    ensures
        r@ == plan_of(hosts@, ports@),
        r@.len() == hosts@.len() * ports@.len(),
{
    proof {
        lemma_plan_shape(hosts@, ports@);
    }
    let mut r: Vec<Probe> = Vec::new();
    let mut i: usize = 0;
    assert(hosts@.take(0) =~= Seq::<IpAddress>::empty());
    while i < hosts.len()
        invariant
            i <= hosts@.len(),
            r@ == plan_of(hosts@.take(i as int), ports@),
        decreases hosts@.len() - i,
    {
        let host = hosts[i];
        let mut j: usize = 0;
        let ghost before = r@;
        while j < ports.len()
            invariant
                i < hosts@.len(),
                host == hosts@[i as int],
                j <= ports@.len(),
                before == plan_of(hosts@.take(i as int), ports@),
                r@ == before + probes_for(host, ports@.take(j as int)),
            decreases ports@.len() - j,
        {
            r.push(Probe { host, port: ports[j] });
            j = j + 1;
            assert(probes_for(host, ports@.take(j as int)) =~= probes_for(
                host,
                ports@.take(j - 1),
            ).push(Probe { host, port: ports@[j - 1] }));
            assert(r@ =~= before + probes_for(host, ports@.take(j as int)));
        }
        assert(ports@.take(j as int) =~= ports@);
        assert(hosts@.take(i + 1).drop_last() =~= hosts@.take(i as int));
        i = i + 1;
    }
    assert(hosts@.take(i as int) =~= hosts@);
    r
}

/// Why a scan cannot start.
#[derive(Clone, Copy, Debug, PartialEq, Eq, Structural)]
pub enum ScanError {
    /// The concurrency ceiling is zero.
    InvalidConcurrency,
}

/// What the driver of a scan does next.
#[derive(Clone, Copy, Debug, PartialEq, Eq, Structural)]
pub enum Step {
    /// Start the probe with this index in the plan.
    Start(usize),
    /// Wait until a running probe finishes, then report it.
    Wait,
    /// Every probe has finished.
    Done,
}

/// The counts a dispatcher keeps.
pub struct DispatchView {
    /// The ceiling on probes in flight at once.
    pub limit: nat,
    /// The number of probes in the plan.
    pub total: nat,
    /// Probes started so far; they were started in plan order.
    pub started: nat,
    /// Probes that have finished.
    pub finished: nat,
}

/// Decides when each probe of a plan may start, so that no more than a fixed
/// number of them are in flight at once.
pub struct Dispatcher {
    limit: usize,
    total: usize,
    started: usize,
    finished: usize,
}

impl View for Dispatcher {
    type V = DispatchView;

    closed spec fn view(&self) -> DispatchView {
        DispatchView {
            limit: self.limit as nat,
            total: self.total as nat,
            started: self.started as nat,
            finished: self.finished as nat,
        }
    }
}

impl Dispatcher {
    /// The ceiling is at least one, probes in flight never exceed it, and no
    /// more probes start than the plan holds.
    pub open spec fn wf(&self) -> bool {
        &&& 1 <= self@.limit
        &&& self@.finished <= self@.started <= self@.total
        &&& self@.started - self@.finished <= self@.limit
    }

    /// A dispatcher for `total` probes with at most `limit` in flight at once.
    pub fn new(total: usize, limit: usize) -> (r: Result<Dispatcher, ScanError>)
        ensures
            r is Err <==> limit == 0,
            r is Err ==> r == Err::<Dispatcher, ScanError>(ScanError::InvalidConcurrency),
            r is Ok ==> r->Ok_0.wf() && r->Ok_0@ == (DispatchView {
                limit: limit as nat,
                total: total as nat,
                started: 0,
                finished: 0,
            }),
    {
        if limit == 0 {
            return Err(ScanError::InvalidConcurrency);
        }
        Ok(Dispatcher { limit, total, started: 0, finished: 0 })
    }

    /// The number of probes in flight.
    pub fn in_flight(&self) -> (r: usize)
        requires
            self.wf(),
        ensures
            r == self@.started - self@.finished,
    {
        self.started - self.finished
    }

    /// Decides the next move: start the next probe of the plan while the
    /// ceiling allows it, else wait for one to finish, or stop when all have.
    pub fn step(&mut self) -> (r: Step)
        requires
            old(self).wf(),
        ensures
            final(self).wf(),
            final(self)@.limit == old(self)@.limit,
            final(self)@.total == old(self)@.total,
            final(self)@.finished == old(self)@.finished,
            ({
                let o = old(self)@;
                if o.started < o.total && o.started - o.finished < o.limit {
                    r == Step::Start(o.started as usize) && final(self)@.started == o.started + 1
                } else if o.finished == o.total {
                    r == Step::Done && final(self)@ == o
                } else {
                    r == Step::Wait && final(self)@ == o
                }
            }),
    {
        if self.started < self.total && self.started - self.finished < self.limit {
            let index = self.started;
            self.started = self.started + 1;
            Step::Start(index)
        } else if self.finished == self.total {
            Step::Done
        } else {
            Step::Wait
        }
    }

    /// Reports that one probe in flight has finished, whatever its outcome.
    pub fn finish_one(&mut self)
        requires
            old(self).wf(),
            old(self)@.started > old(self)@.finished,
        ensures
            final(self).wf(),
            final(self)@ == (DispatchView { finished: old(self)@.finished + 1, ..old(self)@ }),
    {
        self.finished = self.finished + 1;
    }
}

/// Whatever sequence of steps and reports a dispatcher goes through, the probes
/// in flight never exceed its ceiling.
pub proof fn lemma_ceiling_holds(d: Dispatcher)
    requires
        d.wf(),
    ensures
        d@.started - d@.finished <= d@.limit,
{
}

/// The texts that a list of character vectors holds.
pub open spec fn texts(v: Seq<Vec<char>>) -> Seq<Seq<char>> {
    v.map_values(|t: Vec<char>| t@)
}

/// `x` is the label of some probe that was found open.
pub open spec fn found(open: Seq<bool>, labels: Seq<Seq<char>>, x: Seq<char>) -> bool {
    exists|i: int| 0 <= i < open.len() && open[i] && labels[i] == x
}

/// Puts `x` into the strictly ascending list `out`, unless it is there already.
fn insert_sorted(out: &mut Vec<Vec<char>>, x: Vec<char>)
    requires
        sorted_distinct(texts(old(out)@)),
    ensures
        sorted_distinct(texts(final(out)@)),
        forall|y: Seq<char>|
            texts(final(out)@).contains(y) <==> (texts(old(out)@).contains(y) || y == x@),
{
    let ghost before = texts(out@);
    let mut k: usize = 0;
    while k < out.len() && lex_less(&out[k], &x)
        invariant
            k <= out@.len(),
            before == texts(out@),
            forall|j: int| 0 <= j < k ==> lex_lt(#[trigger] before[j], x@),
        decreases out@.len() - k,
    {
        k = k + 1;
    }
    if k < out.len() {
        proof {
            lemma_lex_total(before[k as int], x@);
        }
        if !lex_less(&x, &out[k]) {
            assert(before[k as int] == x@);
            assert(before.contains(x@));
            return;
        }
    }
    out.insert(k, x);
    let ghost after = texts(out@);
    assert(after =~= before.insert(k as int, x@));
    assert forall|i: int, j: int| 0 <= i < j < after.len() implies lex_lt(
        #[trigger] after[i],
        #[trigger] after[j],
    ) by {
        if j < k {
        } else if j == k {
            assert(lex_lt(before[i], x@));
        } else if i == k {
            assert(lex_lt(x@, before[k as int]));
            if j - 1 > k {
                lemma_lex_transitive(x@, before[k as int], before[j - 1]);
            }
        } else if i < k {
            assert(after[i] == before[i] && after[j] == before[j - 1]);
        } else {
            assert(after[i] == before[i - 1] && after[j] == before[j - 1]);
        }
    }
    assert forall|y: Seq<char>| after.contains(y) <==> (before.contains(y) || y == x@) by {
        if after.contains(y) {
            let m = choose|m: int| 0 <= m < after.len() && after[m] == y;
            if m < k {
                assert(before[m] == y);
            } else if m > k {
                assert(before[m - 1] == y);
            }
        }
        if before.contains(y) {
            let m = choose|m: int| 0 <= m < before.len() && before[m] == y;
            if m < k {
                assert(after[m] == y);
            } else {
                assert(after[m + 1] == y);
            }
        }
        if y == x@ {
            assert(after[k as int] == y);
        }
    }
}

/// Gathers which probes of a plan found their port open.
pub struct Collector {
    open: Vec<bool>,
}

impl View for Collector {
    type V = Seq<bool>;

    /// Entry `i` tells whether probe `i` of the plan was reported open.
    closed spec fn view(&self) -> Seq<bool> {
        self.open@
    }
}

impl Collector {
    /// A collector for a plan of `total` probes, none of them open yet.
    pub fn new(total: usize) -> (r: Collector)
        ensures
            r@ == Seq::new(total as nat, |i: int| false),
    {
        let mut open: Vec<bool> = Vec::new();
        let mut i: usize = 0;
        while i < total
            invariant
                i <= total,
                open@ == Seq::new(i as nat, |k: int| false),
            decreases total - i,
        {
            open.push(false);
            i = i + 1;
            assert(open@ =~= Seq::new(i as nat, |k: int| false));
        }
        Collector { open }
    }

    /// The number of probes in the plan.
    pub fn total(&self) -> (r: usize)
        ensures
            r == self@.len(),
    {
        self.open.len()
    }

    /// Notes that probe `task` connected.
    pub fn record(&mut self, task: usize)
        requires
            task < old(self)@.len(),
        ensures
            final(self)@ == old(self)@.update(task as int, true),
    {
        self.open.set(task, true);
    }

    /// The labels of the open probes, each once, in ascending order. `labels`
    /// holds the label of each probe of the plan.
    pub fn results(&self, labels: &Vec<Vec<char>>) -> (r: Vec<Vec<char>>)
        requires
            labels@.len() == self@.len(),
        ensures
            sorted_distinct(texts(r@)),
            forall|x: Seq<char>| texts(r@).contains(x) <==> found(self@, texts(labels@), x),
    {
        let mut out: Vec<Vec<char>> = Vec::new();
        let mut i: usize = 0;
        let n = self.open.len();
        while i < n
            invariant
                n == self@.len() == labels@.len(),
                i <= n,
                sorted_distinct(texts(out@)),
                forall|x: Seq<char>|
                    texts(out@).contains(x) <==> found(self@.take(i as int), texts(labels@), x),
            decreases n - i,
        {
            if self.open[i] {
                insert_sorted(&mut out, labels[i].clone());
            }
            i = i + 1;
            assert forall|x: Seq<char>|
                found(self@.take(i as int), texts(labels@), x) <==> (found(
                    self@.take(i - 1),
                    texts(labels@),
                    x,
                ) || (self@[i - 1] && labels@[i - 1]@ == x)) by {
                if found(self@.take(i as int), texts(labels@), x) {
                    let m = choose|m: int|
                        0 <= m < i && self@.take(i as int)[m] && texts(labels@)[m] == x;
                    if m < i - 1 {
                        assert(self@.take(i - 1)[m]);
                    }
                }
                if found(self@.take(i - 1), texts(labels@), x) {
                    let m = choose|m: int|
                        0 <= m < i - 1 && self@.take(i - 1)[m] && texts(labels@)[m] == x;
                    assert(self@.take(i as int)[m]);
                }
                if self@[i - 1] && labels@[i - 1]@ == x {
                    assert(self@.take(i as int)[i - 1]);
                    assert(texts(labels@)[i - 1] == x);
                }
            }
        }
        assert(self@.take(n as int) =~= self@);
        out
    }
}

/// Where each label belongs to the probe at the same place in the plan, every
/// result is the label of a probe whose host is a target host and whose port a
/// listed port.
pub proof fn lemma_results_in_cross_product(
    hosts: Seq<IpAddress>,
    ports: Seq<u16>,
    open: Seq<bool>,
    labels: Seq<Seq<char>>,
    results: Seq<Seq<char>>,
)
    requires
        open.len() == labels.len() == plan_of(hosts, ports).len(),
        forall|x: Seq<char>| results.contains(x) <==> found(open, labels, x),
    ensures
        forall|x: Seq<char>|
            results.contains(x) ==> exists|i: int|
                0 <= i < labels.len() && labels[i] == x && open[i] && hosts.contains(
                    (#[trigger] plan_of(hosts, ports)[i]).host,
                ) && ports.contains(plan_of(hosts, ports)[i].port),
{
    lemma_plan_shape(hosts, ports);
    let plan = plan_of(hosts, ports);
    assert forall|x: Seq<char>| results.contains(x) implies exists|i: int|
        0 <= i < labels.len() && labels[i] == x && open[i] && hosts.contains(
            (#[trigger] plan_of(hosts, ports)[i]).host,
        ) && ports.contains(plan_of(hosts, ports)[i].port) by {
        let i = choose|i: int| 0 <= i < open.len() && open[i] && labels[i] == x;
        assert(plan.contains(plan[i]));
    }
}

/// Two collections that found the same probes open give the same results,
/// whatever order the reports came in.
pub proof fn lemma_results_determined(
    open: Seq<bool>,
    labels: Seq<Seq<char>>,
    first: Seq<Seq<char>>,
    second: Seq<Seq<char>>,
)
    requires
        sorted_distinct(first),
        sorted_distinct(second),
        forall|x: Seq<char>| first.contains(x) <==> found(open, labels, x),
        forall|x: Seq<char>| second.contains(x) <==> found(open, labels, x),
    ensures
        first == second,
{
    lemma_sorted_unique(first, second);
}

} // verus!
