//! Matching a target path against the structural events of a document.
//!
//! Each opened element gets the smallest sibling index that no earlier
//! element has taken under the same parent path with the same tag; the
//! first element whose resolved path equals the target is reported.

use vstd::prelude::*;
use vstd::relations::injective_on;
use vstd::set_lib::*;

verus! {

/// A place in the document text: row and column, both counted from 0.
#[derive(Clone, Copy, Debug, PartialEq, Eq, Structural)]
pub struct TextPosition {
    pub row: u64,
    pub column: u64,
}

/// One structural event of a document, as the tokenizer reports it.
#[derive(Debug)]
pub enum Event {
    /// An element opens; `pos` is where the tokenizer places the event.
    Open { name: String, pos: TextPosition },
    /// An element closes.
    Close,
    /// The document ended cleanly.
    End,
    /// The tokenizer found malformed input; `message` is its diagnostic.
    Failure { message: String },
    /// Text, comments and everything else that does not affect structure.
    Other,
}

/// The mathematical form of a path: (tag name, sibling index) pairs from the root.
pub type PathModel = Seq<(Seq<char>, nat)>;

/// The model of an executable path.
pub open spec fn path_model(v: Seq<(String, usize)>) -> PathModel {
    v.map_values(|p: (String, usize)| (p.0@, p.1 as nat))
}

/// The state of a walk over the events: the path of the element now open,
/// and every path given to an element so far, in the order they were given.
pub struct Walk {
    pub current: PathModel,
    pub seen: Seq<PathModel>,
}

/// `i` is the first index that no earlier sibling named `name` under `cur` has taken.
pub open spec fn is_first_free(seen: Seq<PathModel>, cur: PathModel, name: Seq<char>, i: nat) -> bool {
    &&& i >= 1
    &&& !seen.contains(cur.push((name, i)))
    &&& forall|j: nat| 1 <= j < i ==> seen.contains(#[trigger] cur.push((name, j)))
}

/// The index that an element named `name`, opened under `cur`, receives.
pub open spec fn free_index(seen: Seq<PathModel>, cur: PathModel, name: Seq<char>) -> nat {
    choose|i: nat| is_first_free(seen, cur, name, i)
}

/// The walk before any event.
pub open spec fn initial_walk() -> Walk {
    Walk { current: Seq::empty(), seen: Seq::empty() }
}

/// One event applied to a walk: an opening element gets its index and is
/// recorded; a closing one is popped; nothing else changes the walk.
pub open spec fn walk_step(w: Walk, ev: Event) -> Walk {
    match ev {
        Event::Open { name, .. } => {
            let p = w.current.push((name@, free_index(w.seen, w.current, name@)));
            Walk { current: p, seen: w.seen.push(p) }
        },
        Event::Close => if w.current.len() > 0 {
            Walk { current: w.current.drop_last(), seen: w.seen }
        } else {
            w
        },
        _ => w,
    }
}

/// The walk after all of `evs`, taken in order.
pub open spec fn walk(evs: Seq<Event>) -> Walk
    decreases evs.len(),
{
    if evs.len() == 0 {
        initial_walk()
    } else {
        walk_step(walk(evs.drop_last()), evs.last())
    }
}

/// The segment that stands for the text of an element.
pub open spec fn text_segment() -> (Seq<char>, nat) {
    ("text()"@, 1nat)
}

/// A target whose last segment addresses text means the element itself.
pub open spec fn stripped_target(t: PathModel) -> PathModel {
    if t.len() > 0 && t.last() == text_segment() {
        t.drop_last()
    } else {
        t
    }
}

/// What a finished search reports: a position, absence, or the tokenizer's error.
pub type OutcomeModel = Result<Option<TextPosition>, Seq<char>>;

/// The model of an executable outcome.
pub open spec fn outcome_view(r: Option<Result<Option<TextPosition>, String>>) -> Option<OutcomeModel> {
    match r {
        Some(Ok(p)) => Some(Ok(p)),
        Some(Err(e)) => Some(Err(e@)),
        None => None,
    }
}

/// The prefix put before the tokenizer's own diagnostic.
pub open spec fn stream_error_prefix() -> Seq<char> {
    "XML parse error: "@
}

/// Whether the event `ev`, leading to the walk `after`, ends the search for
/// `t`, and with what.
pub open spec fn verdict(t: PathModel, after: Walk, ev: Event) -> Option<OutcomeModel> {
    match ev {
        Event::Open { pos, .. } => if after.current == t {
            Some(Ok(Some(pos)))
        } else {
            None
        },
        Event::End => Some(Ok(None)),
        Event::Failure { message } => Some(Err(stream_error_prefix() + message@)),
        _ => None,
    }
}

/// The first verdict for `t` among the first `n` events, if any.
pub open spec fn outcome_within(t: PathModel, evs: Seq<Event>, n: nat) -> Option<OutcomeModel>
    decreases n,
{
    if n == 0 || n > evs.len() {
        None
    } else {
        match outcome_within(t, evs, (n - 1) as nat) {
            Some(o) => Some(o),
            None => verdict(t, walk(evs.take(n as int)), evs[n - 1]),
        }
    }
}

/// The outcome of searching `evs` for `target`: `None` when the events run
/// out before a match, an end of document or an error.
pub open spec fn outcome(target: PathModel, evs: Seq<Event>) -> Option<OutcomeModel> {
    outcome_within(stripped_target(target), evs, evs.len())
}


/// If the indices `1..=m` of `name` under `cur` are all taken, `seen` holds
/// at least `m` paths.
proof fn lemma_taken_bound(seen: Seq<PathModel>, cur: PathModel, name: Seq<char>, m: nat)
    requires
        forall|j: nat| 1 <= j <= m ==> seen.contains(#[trigger] cur.push((name, j))),
    ensures
        m <= seen.len(),
{
    let x = set_int_range(1, m as int + 1);
    let f = |j: int| cur.push((name, j as nat));
    lemma_int_range(1, m as int + 1);
    assert(injective_on(f, x)) by {
        assert forall|a: int, b: int| x.contains(a) && x.contains(b) && #[trigger] f(a) == #[trigger] f(b) implies a == b by {
            assert(f(a)[cur.len() as int] == f(b)[cur.len() as int]);
        }
    }
    let y = x.map(f);
    lemma_map_size(x, y, f);
    assert(y.subset_of(seen.to_set())) by {
        assert forall|p: PathModel| y.contains(p) implies seen.to_set().contains(p) by {
            let j = choose|j: int| x.contains(j) && f(j) == p;
            assert(seen.contains(cur.push((name, j as nat))));
        }
    }
    seen.lemma_cardinality_of_set();
    lemma_len_subset(y, seen.to_set());
}

/// Some index is always free, and the first free one is `free_index`.
proof fn lemma_free_index(seen: Seq<PathModel>, cur: PathModel, name: Seq<char>, i: nat)
    requires
        is_first_free(seen, cur, name, i),
    ensures
        free_index(seen, cur, name) == i,
{
    let k = free_index(seen, cur, name);
    assert(is_first_free(seen, cur, name, k));
    if k < i {
        assert(seen.contains(cur.push((name, k))));
    } else if i < k {
        assert(seen.contains(cur.push((name, i))));
    }
}

/// There is a first free index, so `free_index` names it.
proof fn lemma_free_index_exists(seen: Seq<PathModel>, cur: PathModel, name: Seq<char>)
    ensures
        is_first_free(seen, cur, name, free_index(seen, cur, name)),
{
    lemma_first_free_from(seen, cur, name, 1);
}

proof fn lemma_first_free_from(seen: Seq<PathModel>, cur: PathModel, name: Seq<char>, i: nat)
    requires
        i >= 1,
        forall|j: nat| 1 <= j < i ==> seen.contains(#[trigger] cur.push((name, j))),
    ensures
        is_first_free(seen, cur, name, free_index(seen, cur, name)),
    decreases seen.len() + 1 - i,
{
    if !seen.contains(cur.push((name, i))) {
        assert(is_first_free(seen, cur, name, i));
    } else {
        assert forall|j: nat| 1 <= j <= i implies seen.contains(#[trigger] cur.push((name, j))) by {
            if j < i {
            }
        }
        lemma_taken_bound(seen, cur, name, i);
        lemma_first_free_from(seen, cur, name, i + 1);
    }
}


/// The model of a list of executable paths.
pub open spec fn paths_model(v: Seq<Vec<(String, usize)>>) -> Seq<PathModel> {
    v.map_values(|p: Vec<(String, usize)>| path_model(p@))
}

proof fn lemma_path_model_push(v: Seq<(String, usize)>, p: (String, usize))
    ensures
        path_model(v.push(p)) == path_model(v).push((p.0@, p.1 as nat)),
{
    assert(path_model(v.push(p)) =~= path_model(v).push((p.0@, p.1 as nat)));
}

/// A copy of a path.
fn copy_path(p: &[(String, usize)]) -> (r: Vec<(String, usize)>)
    ensures
        path_model(r@) == path_model(p@),
{
    let mut r: Vec<(String, usize)> = Vec::new();
    let mut k: usize = 0;
    while k < p.len()
        invariant
            k <= p@.len(),
            path_model(r@) == path_model(p@.take(k as int)),
        decreases p@.len() - k,
    {
        proof {
            lemma_path_model_push(r@, p@[k as int]);
            assert(p@.take(k + 1) =~= p@.take(k as int).push(p@[k as int]));
        }
        r.push((p[k].0.clone(), p[k].1));
        k = k + 1;
    }
    assert(p@.take(p@.len() as int) =~= p@);
    r
}

/// Whether `p` is `cur` followed by the segment (`name`, `i`).
fn is_extension(p: &Vec<(String, usize)>, cur: &Vec<(String, usize)>, name: &String, i: usize) -> (r: bool)
    ensures
        r == (path_model(p@) == path_model(cur@).push((name@, i as nat))),
{
    let ghost want = path_model(cur@).push((name@, i as nat));
    if p.len() == 0 || p.len() - 1 != cur.len() {
        assert(path_model(p@).len() != want.len());
        return false;
    }
    let mut k: usize = 0;
    while k < cur.len()
        invariant
            k <= cur@.len(),
            p@.len() == cur@.len() + 1,
            want == path_model(cur@).push((name@, i as nat)),
            forall|j: int| 0 <= j < k ==> #[trigger] path_model(p@)[j] == want[j],
        decreases cur@.len() - k,
    {
        assert(path_model(p@)[k as int] == (p@[k as int].0@, p@[k as int].1 as nat));
        assert(path_model(cur@)[k as int] == (cur@[k as int].0@, cur@[k as int].1 as nat));
        assert(want[k as int] == path_model(cur@)[k as int]);
        if !(p[k].0 == cur[k].0 && p[k].1 == cur[k].1) {
            assert(path_model(p@)[k as int] != want[k as int]);
            return false;
        }
        k = k + 1;
    }
    let last = cur.len();
    assert(path_model(p@)[last as int] == (p@[last as int].0@, p@[last as int].1 as nat));
    if p[last].0 == *name && p[last].1 == i {
        assert(path_model(p@) =~= want);
        true
    } else {
        assert(path_model(p@)[last as int] != want[last as int]);
        false
    }
}

/// Whether some path in `seen` is `cur` followed by (`name`, `i`).
fn is_taken(seen: &Vec<Vec<(String, usize)>>, cur: &Vec<(String, usize)>, name: &String, i: usize) -> (r: bool)
    ensures
        r == paths_model(seen@).contains(path_model(cur@).push((name@, i as nat))),
{
    let ghost want = path_model(cur@).push((name@, i as nat));
    let mut k: usize = 0;
    while k < seen.len()
        invariant
            k <= seen@.len(),
            want == path_model(cur@).push((name@, i as nat)),
            forall|j: int| 0 <= j < k ==> #[trigger] paths_model(seen@)[j] != want,
        decreases seen@.len() - k,
    {
        let entry = &seen[k];
        assert(paths_model(seen@)[k as int] == path_model(entry@));
        if is_extension(entry, cur, name, i) {
            assert(paths_model(seen@)[k as int] == want);
            return true;
        }
        k = k + 1;
    }
    assert(!paths_model(seen@).contains(want));
    false
}

/// The search for one target path, fed one event at a time.
pub struct PathMatcher {
    target: Vec<(String, usize)>,
    current: Vec<(String, usize)>,
    seen: Vec<Vec<(String, usize)>>,
}

impl PathMatcher {
    /// The path searched for, with a trailing text segment already removed.
    pub closed spec fn target_model(&self) -> PathModel {
        path_model(self.target@)
    }

    /// The walk over the events fed so far.
    pub closed spec fn walk_model(&self) -> Walk {
        Walk { current: path_model(self.current@), seen: paths_model(self.seen@) }
    }

    /// Starts a search for `needle`. A last segment `text()[1]` is dropped,
    /// since the text of an element is found where the element opens.
    pub fn new(needle: &[(String, usize)]) -> (m: PathMatcher)
        ensures
            m.target_model() == stripped_target(path_model(needle@)),
            m.walk_model() == initial_walk(),
    {
        let mut target = copy_path(needle);
        let n = target.len();
        if n > 0 {
            let text = String::from_str("text()");
            if target[n - 1].0 == text && target[n - 1].1 == 1 {
                target.pop();
                assert(path_model(target@) =~= path_model(needle@).drop_last());
            } else {
                assert(path_model(needle@).last() != text_segment());
            }
        }
        let m = PathMatcher { target, current: Vec::new(), seen: Vec::new() };
        assert(m.walk_model().current =~= initial_walk().current);
        assert(m.walk_model().seen =~= initial_walk().seen);
        m
    }

    /// How many elements have opened so far.
    pub fn opened_count(&self) -> (r: usize)
        ensures
            r == self.walk_model().seen.len(),
    {
        self.seen.len()
    }

    /// Feeds one event. Returns `None` while the search goes on, and otherwise
    /// the position of the element that matched, `Ok(None)` at the end of the
    /// document, or the tokenizer's error behind `XML parse error: `.
    pub fn step(&mut self, ev: &Event) -> (r: Option<Result<Option<TextPosition>, String>>)
        requires
            old(self).walk_model().seen.len() < usize::MAX,
        ensures
            final(self).target_model() == old(self).target_model(),
            final(self).walk_model() == walk_step(old(self).walk_model(), *ev),
            outcome_view(r) == verdict(old(self).target_model(), final(self).walk_model(), *ev),
    {
        match ev {
            Event::Open { name, pos } => {
                let ghost w = self.walk_model();
                let mut i: usize = 1;
                let mut taken = is_taken(&self.seen, &self.current, name, i);
                while taken
                    invariant
                        w == self.walk_model(),
                        w.seen.len() < usize::MAX,
                        1 <= i <= w.seen.len() + 1,
                        taken == w.seen.contains(w.current.push((name@, i as nat))),
                        forall|j: nat| 1 <= j < i ==> w.seen.contains(#[trigger] w.current.push((name@, j))),
                    decreases w.seen.len() + 1 - i,
                {
                    proof {
                        assert forall|j: nat| 1 <= j <= i implies w.seen.contains(#[trigger] w.current.push((name@, j))) by {
                            if j < i {
                            }
                        }
                        lemma_taken_bound(w.seen, w.current, name@, i as nat);
                    }
                    i = i + 1;
                    taken = is_taken(&self.seen, &self.current, name, i);
                }
                proof {
                    assert(is_first_free(w.seen, w.current, name@, i as nat));
                    lemma_free_index(w.seen, w.current, name@, i as nat);
                }
                let seg = (name.clone(), i);
                proof {
                    lemma_path_model_push(self.current@, seg);
                }
                self.current.push(seg);
                let path = copy_path(&self.current);
                self.seen.push(path);
                assert(paths_model(self.seen@) =~= w.seen.push(path_model(self.current@)));
                if self.current.len() == self.target.len() && same_path(&self.current, &self.target) {
                    Some(Ok(Some(*pos)))
                } else {
                    None
                }
            },
            Event::Close => {
                if self.current.len() > 0 {
                    self.current.pop();
                    assert(path_model(self.current@) =~= path_model(old(self).current@).drop_last());
                }
                None
            },
            Event::End => Some(Ok(None)),
            Event::Failure { message } => {
                let mut msg = String::from_str("XML parse error: ");
                msg.append(message.as_str());
                assert(msg@ == stream_error_prefix() + message@);
                Some(Err(msg))
            },
            Event::Other => None,
        }
    }
}

/// Whether two paths are equal, segment by segment.
fn same_path(a: &Vec<(String, usize)>, b: &Vec<(String, usize)>) -> (r: bool)
    ensures
        r == (path_model(a@) == path_model(b@)),
{
    if a.len() != b.len() {
        assert(path_model(a@).len() != path_model(b@).len());
        return false;
    }
    let mut k: usize = 0;
    while k < a.len()
        invariant
            k <= a@.len(),
            a@.len() == b@.len(),
            forall|j: int| 0 <= j < k ==> #[trigger] path_model(a@)[j] == path_model(b@)[j],
        decreases a@.len() - k,
    {
        if !(a[k].0 == b[k].0 && a[k].1 == b[k].1) {
            assert(path_model(a@)[k as int] != path_model(b@)[k as int]);
            return false;
        }
        k = k + 1;
    }
    assert(path_model(a@) =~= path_model(b@));
    true
}


/// Once a verdict is reached, later events do not change it.
proof fn lemma_outcome_settles(t: PathModel, evs: Seq<Event>, n: nat, m: nat)
    requires
        n <= m <= evs.len(),
        outcome_within(t, evs, n) is Some,
    ensures
        outcome_within(t, evs, m) == outcome_within(t, evs, n),
    decreases m - n,
{
    if n < m {
        lemma_outcome_settles(t, evs, n, (m - 1) as nat);
    }
}

/// A walk step records at most one path.
proof fn lemma_walk_step_seen(w: Walk, ev: Event)
    ensures
        walk_step(w, ev).seen.len() <= w.seen.len() + 1,
        forall|p: PathModel| w.seen.contains(p) ==> #[trigger] walk_step(w, ev).seen.contains(p),
{
    if ev is Open {
        let p = walk_step(w, ev).current;
        assert forall|q: PathModel| w.seen.contains(q) implies #[trigger] walk_step(w, ev).seen.contains(q) by {
            let i = choose|i: int| 0 <= i < w.seen.len() && w.seen[i] == q;
            assert(w.seen.push(p)[i] == q);
        }
    }
}

proof fn lemma_walk_take_step(evs: Seq<Event>, k: int)
    requires
        0 <= k < evs.len(),
    ensures
        walk(evs.take(k + 1)) == walk_step(walk(evs.take(k)), evs[k]),
{
    assert(evs.take(k + 1).drop_last() =~= evs.take(k));
}

/// Paths recorded by the walk stay recorded.
proof fn lemma_seen_grows(evs: Seq<Event>, a: int, b: int, p: PathModel)
    requires
        0 <= a <= b <= evs.len(),
        walk(evs.take(a)).seen.contains(p),
    ensures
        walk(evs.take(b)).seen.contains(p),
    decreases b - a,
{
    if a < b {
        lemma_seen_grows(evs, a, b - 1, p);
        lemma_walk_take_step(evs, b - 1);
        lemma_walk_step_seen(walk(evs.take(b - 1)), evs[b - 1]);
    }
}

/// Runs the search for `needle` over `events`, in order, and stops at the
/// first event that decides it. `None` means the events ran out first.
pub fn match_events(events: &[Event], needle: &[(String, usize)]) -> (r: Option<
    Result<Option<TextPosition>, String>,
>)
    ensures
        outcome_view(r) == outcome(path_model(needle@), events@),
{
    let ghost t = stripped_target(path_model(needle@));
    let mut m = PathMatcher::new(needle);
    let mut k: usize = 0;
    assert(events@.take(0) =~= Seq::<Event>::empty());
    while k < events.len()
        invariant
            k <= events@.len(),
            m.target_model() == t,
            t == stripped_target(path_model(needle@)),
            m.walk_model() == walk(events@.take(k as int)),
            m.walk_model().seen.len() <= k,
            outcome_within(t, events@, k as nat) is None,
        decreases events@.len() - k,
    {
        proof {
            lemma_walk_take_step(events@, k as int);
            lemma_walk_step_seen(m.walk_model(), events@[k as int]);
        }
        let r = m.step(&events[k]);
        if r.is_some() {
            proof {
                lemma_outcome_settles(t, events@, (k + 1) as nat, events@.len());
            }
            return r;
        }
        k = k + 1;
    }
    None
}

/// The element that the walk gives path `walk(evs.take(k + 1)).current` is the
/// one a search for that path reports: no element opened before it has that
/// path, since each element receives an index no earlier sibling holds. The
/// events before it hold no end of document and no error, and its path does
/// not end with the text segment, which a search drops.
pub proof fn lemma_walk_path_is_found(evs: Seq<Event>, k: int)
    requires
        0 <= k < evs.len(),
        evs[k] is Open,
        forall|j: int| 0 <= j < k ==> !(#[trigger] evs[j] is End) && !(evs[j] is Failure),
        walk(evs.take(k + 1)).current.last() != text_segment(),
    ensures
        outcome(walk(evs.take(k + 1)).current, evs) == Some(
            Ok::<Option<TextPosition>, Seq<char>>(Some(evs[k]->pos)),
        ),
{
    let w = walk(evs.take(k));
    let t = walk(evs.take(k + 1)).current;
    lemma_walk_take_step(evs, k);
    let name = evs[k]->name;
    lemma_free_index_exists(w.seen, w.current, name@);
    assert(!w.seen.contains(t));
    assert(stripped_target(t) == t);
    lemma_no_verdict_before(evs, k, k, t);
    lemma_outcome_settles(t, evs, (k + 1) as nat, evs.len());
}

/// No event before `n` decides a search for a path not recorded by event `k`.
proof fn lemma_no_verdict_before(evs: Seq<Event>, k: int, n: int, t: PathModel)
    requires
        0 <= n <= k < evs.len(),
        forall|j: int| 0 <= j < k ==> !(#[trigger] evs[j] is End) && !(evs[j] is Failure),
        !walk(evs.take(k)).seen.contains(t),
    ensures
        outcome_within(t, evs, n as nat) is None,
    decreases n,
{
    if n > 0 {
        lemma_no_verdict_before(evs, k, n - 1, t);
        let j = n - 1;
        lemma_walk_take_step(evs, j);
        let after = walk(evs.take(j + 1));
        if evs[j] is Open {
            assert(after.seen.contains(after.current)) by {
                assert(after.seen.last() == after.current);
            }
            if after.current == t {
                lemma_seen_grows(evs, j + 1, k, t);
            }
        }
        assert(!(evs[j] is End));
    }
}

/// A trailing `text()[1]` segment does not change what a search finds, as
/// long as what remains does not itself end with one.
pub proof fn lemma_text_segment_ignored(target: PathModel, evs: Seq<Event>)
    requires
        target.len() > 0,
        target.last() == text_segment(),
        stripped_target(target.drop_last()) == target.drop_last(),
    ensures
        outcome(target, evs) == outcome(target.drop_last(), evs),
{
}

} // verus!
