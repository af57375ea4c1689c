use vstd::prelude::*;

verus! {

#[verifier::external_type_specification]
#[verifier::external_body]
pub struct ExInstant(std::time::Instant);

/// Calls `std::time::Instant::now`. Nothing is claimed of the instant it
/// returns.
#[verifier::external_body]
fn instant_now() -> std::time::Instant {
    std::time::Instant::now()
}

/// Calls `std::time::Instant::saturating_duration_since`, which gives the time
/// from `earlier` to `later`, or zero where `earlier` is the later one. Nothing
/// is claimed of the span it returns.
#[verifier::external_body]
fn span_between(later: &std::time::Instant, earlier: &std::time::Instant) -> std::time::Duration {
    later.saturating_duration_since(*earlier)
}

/// Calls `std::time::Duration::as_micros`. Nothing is claimed of the number it
/// returns.
#[verifier::external_body]
fn whole_micros(span: &std::time::Duration) -> u128 {
    span.as_micros()
}

/// Whether `a` and `b` have the same characters.
fn same_name(a: &str, b: &str) -> (same: bool)
    ensures
        same == (a@ == b@),
{
    let left = a.as_bytes();
    let right = b.as_bytes();
    proof {
        vstd::utf8::encode_utf8_decode_utf8(a@);
        vstd::utf8::encode_utf8_decode_utf8(b@);
    }
    if left.len() != right.len() {
        return false;
    }
    let mut at: usize = 0;
    while at < left.len()
        invariant
            at <= left.len() == right.len(),
            left@ == vstd::utf8::encode_utf8(a@),
            right@ == vstd::utf8::encode_utf8(b@),
            forall|i: int| 0 <= i < at ==> left@[i] == right@[i],
        decreases left.len() - at,
    {
        if left[at] != right[at] {
            return false;
        }
        at += 1;
    }
    assert(left@ =~= right@);
    true
}

/// A clock in microseconds that never runs backwards.
///
/// Whatever the machine's clock reports, `now` never returns less than it
/// returned before.
struct Clock {
    origin: std::time::Instant,
    last: u64,
}

impl Clock {
    fn start() -> (clock: Clock)
        ensures
            clock.last == 0,
    {
        Clock { origin: instant_now(), last: 0 }
    }

    fn now(&mut self) -> (t: u64)
        ensures
            old(self).last <= t,
            final(self).last == t,
    {
        let reading = instant_now();
        let span = span_between(&reading, &self.origin);
        let raw: u128 = whole_micros(&span);
        let capped: u64 = if raw > 0xffff_ffff_ffff_ffff {
            u64::MAX
        } else {
            raw as u64
        };
        let t: u64 = if capped < self.last {
            self.last
        } else {
            capped
        };
        self.last = t;
        t
    }
}

/// A closed timing scope: its name, how long it was open, and the scopes that
/// were opened and closed inside it, in the order in which they were opened.
#[derive(Debug)]
pub struct Timing {
    pub name: &'static str,
    /// Time between opening and closing, in microseconds.
    pub micros: u64,
    pub children: Vec<Timing>,
}

/// Sum of the durations of `scopes`.
pub open spec fn total_micros(scopes: Seq<Timing>) -> nat
    decreases scopes.len(),
{
    if scopes.len() == 0 {
        0
    } else {
        total_micros(scopes.drop_last()) + scopes.last().micros as nat
    }
}

/// `at` is the position of the first scope of `scopes` that is called `name`.
pub open spec fn first_named(scopes: Seq<Timing>, name: Seq<char>, at: int) -> bool {
    &&& 0 <= at < scopes.len()
    &&& scopes[at].name@ == name
    &&& forall|j: int| 0 <= j < at ==> (#[trigger] scopes[j]).name@ != name
}

/// No scope of `scopes` is called `name`.
pub open spec fn none_named(scopes: Seq<Timing>, name: Seq<char>) -> bool {
    forall|j: int| 0 <= j < scopes.len() ==> (#[trigger] scopes[j]).name@ != name
}

/// The first scope of `scopes` that is called `name`, if there is one.
fn find_named<'a>(scopes: &'a Vec<Timing>, name: &str) -> (found: Option<&'a Timing>)
    ensures
        match found {
            Some(scope) => exists|at: int|
                first_named(scopes@, name@, at) && *scope == #[trigger] scopes@[at],
            None => none_named(scopes@, name@),
        },
{
    let mut at: usize = 0;
    while at < scopes.len()
        invariant
            at <= scopes.len(),
            forall|j: int| 0 <= j < at ==> (#[trigger] scopes@[j]).name@ != name@,
        decreases scopes.len() - at,
    {
        if same_name(scopes[at].name, name) {
            return Some(&scopes[at]);
        }
        at += 1;
    }
    None
}

impl Timing {
    /// The time of every scope in this tree covers the times of the scopes
    /// directly inside it.
    pub open spec fn nested(&self) -> bool
        decreases self,
    {
        &&& total_micros(self.children@) <= self.micros
        &&& forall|i: int|
            0 <= i < self.children@.len() ==> (#[trigger] self.children@[i]).nested()
    }

    /// The scope is called `name` and nothing was timed inside it.
    pub open spec fn is_leaf(&self, name: Seq<char>) -> bool {
        &&& self.name@ == name
        &&& self.children@.len() == 0
    }

    /// The scope's name.
    pub fn name(&self) -> (name: &'static str)
        ensures
            name@ == self.name@,
    {
        self.name
    }

    /// Time between the opening and the closing of the scope, in microseconds.
    pub fn duration(&self) -> (micros: u64)
        ensures
            micros == self.micros,
    {
        self.micros
    }

    /// The first scope directly inside this one that is called `name`.
    pub fn child(&self, name: &str) -> (found: Option<&Timing>)
        ensures
            match found {
                Some(scope) => exists|at: int|
                    first_named(self.children@, name@, at) && *scope == #[trigger] self.children@[at],
                None => none_named(self.children@, name@),
            },
    {
        find_named(&self.children, name)
    }
}

/// A scope that is still open.
struct OpenScope {
    name: &'static str,
    /// Reading of the clock when the scope was opened.
    started: u64,
    /// The scopes closed inside this one so far.
    children: Vec<Timing>,
}

impl OpenScope {
    /// The scopes closed inside this one are nested, and they fit between the
    /// opening of this scope and `until`.
    spec fn fits(&self, until: int) -> bool {
        &&& self.started + total_micros(self.children@) <= until
        &&& forall|i: int|
            0 <= i < self.children@.len() ==> (#[trigger] self.children@[i]).nested()
    }

    spec fn frame(&self) -> Frame {
        Frame { name: self.name@, children: self.children@ }
    }
}

/// What a timer tree shows of a scope that is still open: its name and the
/// scopes closed inside it so far.
pub struct Frame {
    pub name: Seq<char>,
    pub children: Seq<Timing>,
}

/// Named timing scopes, one inside the other.
///
/// `open` starts a scope inside the innermost scope that is still open, and
/// `close` ends the innermost open scope and files it under its parent. The
/// closed scopes of the outermost level are the roots.
pub struct TimerTree {
    roots: Vec<Timing>,
    /// The scopes that are open, the outermost first.
    stack: Vec<OpenScope>,
    clock: Clock,
}

impl TimerTree {
    /// The closed scopes of the outermost level.
    pub closed spec fn roots(&self) -> Seq<Timing> {
        self.roots@
    }

    /// The scopes that are open, the outermost first.
    pub closed spec fn frames(&self) -> Seq<Frame> {
        Seq::new(self.stack@.len(), |i: int| self.stack@[i].frame())
    }

    /// Number of scopes that are open.
    pub open spec fn depth(&self) -> nat {
        self.frames().len()
    }

    /// Reading of the clock at which the `i`-th open scope has to be done with
    /// the scopes closed inside it: the opening of the next open scope, or now.
    spec fn limit(&self, i: int) -> int {
        if i + 1 < self.stack@.len() {
            self.stack@[i + 1].started as int
        } else {
            self.clock.last as int
        }
    }

    /// Every closed scope covers the scopes inside it, and the tree's clock is
    /// not behind any of them.
    pub closed spec fn wf(&self) -> bool {
        &&& forall|i: int| 0 <= i < self.roots@.len() ==> (#[trigger] self.roots@[i]).nested()
        &&& forall|i: int|
            0 <= i < self.stack@.len() ==> (#[trigger] self.stack@[i]).fits(self.limit(i))
    }

    /// The scope that was closed last at the innermost open level.
    pub open spec fn last_closed(&self) -> Timing {
        if self.depth() == 0 {
            self.roots().last()
        } else {
            self.frames().last().children.last()
        }
    }

    /// `self` is `before` with more scopes closed inside the innermost open
    /// scope, and nothing else changed.
    pub open spec fn extends_innermost(&self, before: &TimerTree) -> bool {
        &&& self.roots() == before.roots()
        &&& self.depth() == before.depth()
        &&& self.frames().drop_last() == before.frames().drop_last()
        &&& self.frames().last().name == before.frames().last().name
        &&& before.frames().last().children.is_prefix_of(self.frames().last().children)
    }

    /// `self` is `before` after scopes called `names` were opened and closed,
    /// one after the other and with nothing timed inside them, in the
    /// innermost open scope.
    pub open spec fn timed_inside(&self, before: &TimerTree, names: Seq<Seq<char>>) -> bool {
        let had = before.frames().last().children;
        let has = self.frames().last().children;
        &&& self.extends_innermost(before)
        &&& has.len() == had.len() + names.len()
        &&& forall|i: int| 0 <= i < names.len() ==> (#[trigger] has[had.len() + i]).is_leaf(names[i])
    }

    /// A tree without scopes.
    pub fn new() -> (tree: TimerTree)
        ensures
            tree.wf(),
            tree.roots() == Seq::<Timing>::empty(),
            tree.frames() == Seq::<Frame>::empty(),
    {
        TimerTree { roots: Vec::new(), stack: Vec::new(), clock: Clock::start() }
    }

    /// Opens a scope called `name` inside the innermost open scope.
    pub fn open(&mut self, name: &'static str)
        requires
            old(self).wf(),
        ensures
            final(self).wf(),
            final(self).roots() == old(self).roots(),
            final(self).frames() == old(self).frames().push(
                (Frame { name: name@, children: Seq::empty() }),
            ),
    {
        let started = self.clock.now();
        self.stack.push(OpenScope { name, started, children: Vec::new() });
        proof {
            let n = old(self).stack@.len() as int;
            assert forall|i: int| 0 <= i < self.stack@.len() implies (#[trigger] self.stack@[i]).fits(
                self.limit(i),
            ) by {
                if i < n {
                    assert(self.stack@[i] == old(self).stack@[i]);
                    assert(old(self).stack@[i].fits(old(self).limit(i)));
                }
            }
        }
    }

    /// Closes the innermost open scope and files it under its parent, or
    /// under the roots where it has none.
    pub fn close(&mut self)
        requires
            old(self).wf(),
            old(self).depth() > 0,
        ensures
            final(self).wf(),
            final(self).depth() == old(self).depth() - 1,
            final(self).last_closed().name@ == old(self).frames().last().name,
            final(self).last_closed().children@ == old(self).frames().last().children,
            final(self).last_closed().nested(),
            old(self).depth() == 1 ==> final(self).roots() == old(self).roots().push(
                final(self).last_closed(),
            ),
            old(self).depth() > 1 ==> final(self).roots() == old(self).roots(),
            old(self).depth() > 1 ==> final(self).frames() == old(self).frames().drop_last().drop_last().push(
                (Frame {
                    name: old(self).frames()[old(self).depth() - 2].name,
                    children: old(self).frames()[old(self).depth() - 2].children.push(
                        final(self).last_closed(),
                    ),
                }),
            ),
    {
        let ghost n = self.stack@.len() as int;
        assert(self.stack@[n - 1].fits(self.limit(n - 1)));
        let now = self.clock.now();
        let top = self.stack.pop().unwrap();
        let OpenScope { name, started, children } = top;
        let timing = Timing { name, micros: now - started, children };
        match self.stack.pop() {
            None => {
                self.roots.push(timing);
            },
            Some(parent) => {
                let mut parent = parent;
                assert(parent == old(self).stack@[n - 2]);
                assert(parent.fits(old(self).limit(n - 2)));
                proof {
                    let grown = parent.children@.push(timing);
                    assert(grown.drop_last() =~= parent.children@);
                }
                parent.children.push(timing);
                self.stack.push(parent);
                proof {
                    assert forall|i: int| 0 <= i < self.stack@.len() implies (
                    #[trigger] self.stack@[i]).fits(self.limit(i)) by {
                        if i < n - 2 {
                            assert(self.stack@[i] == old(self).stack@[i]);
                            assert(old(self).stack@[i].fits(old(self).limit(i)));
                        }
                    }
                }
            },
        }
    }

    /// The closed scopes of the outermost level, in the order in which they
    /// were opened.
    pub fn timings(&self) -> (roots: &Vec<Timing>)
        ensures
            roots@ == self.roots(),
    {
        &self.roots
    }

    /// The first closed scope of the outermost level that is called `name`.
    pub fn child(&self, name: &str) -> (found: Option<&Timing>)
        ensures
            match found {
                Some(scope) => exists|at: int|
                    first_named(self.roots(), name@, at) && *scope == #[trigger] self.roots()[at],
                None => none_named(self.roots(), name@),
            },
    {
        let found = find_named(&self.roots, name);
        proof {
            if let Some(scope) = found {
                let at = choose|at: int|
                    first_named(self.roots@, name@, at) && *scope == #[trigger] self.roots@[at];
                assert(first_named(self.roots(), name@, at) && *scope == self.roots()[at]);
            }
        }
        found
    }
}

} // verus!
