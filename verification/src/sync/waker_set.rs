//! Sets of tasks that wait for something.
use vstd::prelude::*;

verus! {

/// The wakers of waiting tasks, by token. `W` wakes a task, and `T` is what is known
/// of it.
///
/// Tokens are given out in ascending order, so that the smallest one belongs to the
/// task that has waited longest.
pub struct WakerSet<W, T> {
    waiters: Vec<(u64, W, T)>,
    next_id: u64,
}

/// The token is in the list.
spec fn has_token<W, T>(s: Seq<(u64, W, T)>, token: u64) -> bool {
    exists|i: int| 0 <= i < s.len() && (#[trigger] s[i]).0 == token
}

/// Where the token is in the list.
spec fn index_of_token<W, T>(s: Seq<(u64, W, T)>, token: u64) -> int {
    choose|i: int| 0 <= i < s.len() && (#[trigger] s[i]).0 == token
}

/// Tokens ascend.
spec fn ascending<W, T>(s: Seq<(u64, W, T)>) -> bool {
    forall|i: int, j: int| 0 <= i < j < s.len() ==> (#[trigger] s[i]).0 < (#[trigger] s[j]).0
}

/// The list as a map.
spec fn as_map<W, T>(s: Seq<(u64, W, T)>) -> Map<u64, (W, T)> {
    Map::new(
        |token: u64| has_token(s, token),
        |token: u64| (s[index_of_token(s, token)].1, s[index_of_token(s, token)].2),
    )
}

/// Each entry of the list is what the map says of its token.
proof fn lemma_as_map<W, T>(s: Seq<(u64, W, T)>, i: int)
    requires
        ascending(s),
        0 <= i < s.len(),
    ensures
        as_map(s).dom().contains(s[i].0),
        as_map(s)[s[i].0] == (s[i].1, s[i].2),
        index_of_token(s, s[i].0) == i,
{
    let k = index_of_token(s, s[i].0);
    assert(has_token(s, s[i].0));
    if k < i {
        assert(s[k].0 < s[i].0);
    }
    if i < k {
        assert(s[i].0 < s[k].0);
    }
}

/// The token is the smallest one.
pub open spec fn is_first<V>(m: Map<u64, V>, token: u64) -> bool {
    m.dom().contains(token) && forall|k: u64| #[trigger] m.dom().contains(k) ==> token <= k
}

/// The token that is given out after this one.
pub open spec fn token_after(token: u64) -> u64 {
    if token == u64::MAX {
        0
    } else {
        (token + 1) as u64
    }
}

/// The tokens, in ascending order, are those of the map.
pub open spec fn in_order<V>(m: Map<u64, V>, tokens: Seq<u64>) -> bool {
    &&& forall|i: int, j: int| 0 <= i < j < tokens.len() ==> tokens[i] < tokens[j]
    &&& forall|k: u64| #[trigger] m.dom().contains(k) <==> tokens.contains(k)
}

impl<W, T> View for WakerSet<W, T> {
    type V = Map<u64, (W, T)>;

    closed spec fn view(&self) -> Map<u64, (W, T)> {
        as_map(self.waiters@)
    }
}

/// Taking an entry out of the list takes its token out of the map.
proof fn lemma_remove<W, T>(s: Seq<(u64, W, T)>, i: int)
    requires
        ascending(s),
        0 <= i < s.len(),
    ensures
        ascending(s.remove(i)),
        as_map(s.remove(i)) == as_map(s).remove(s[i].0),
{
    let t = s.remove(i);
    assert forall|j: int| 0 <= j < t.len() implies #[trigger] t[j] == (if j < i {
        s[j]
    } else {
        s[j + 1]
    }) by {}
    assert(ascending(t));
    let m = as_map(t);
    let n = as_map(s).remove(s[i].0);
    assert forall|k: u64| #[trigger] m.dom().contains(k) <==> n.dom().contains(k) by {
        if has_token(t, k) {
            let j = index_of_token(t, k);
            if j < i {
                assert(s[j].0 == k && s[j].0 < s[i].0);
            } else {
                assert(s[j + 1].0 == k && s[i].0 < s[j + 1].0);
            }
        }
        if has_token(s, k) && k != s[i].0 {
            let j = index_of_token(s, k);
            if j < i {
                assert(t[j].0 == k);
            } else {
                assert(t[j - 1].0 == k);
            }
        }
    }
    assert forall|k: u64| #[trigger] m.dom().contains(k) implies m[k] == n[k] by {
        let j = index_of_token(t, k);
        lemma_as_map(t, j);
        if j < i {
            lemma_as_map(s, j);
        } else {
            lemma_as_map(s, j + 1);
        }
    }
    assert(m =~= n);
}

/// Putting an entry into the list puts its token into the map.
proof fn lemma_insert<W, T>(s: Seq<(u64, W, T)>, i: int, e: (u64, W, T))
    requires
        ascending(s),
        0 <= i <= s.len(),
        forall|j: int| 0 <= j < i ==> (#[trigger] s[j]).0 < e.0,
        forall|j: int| i <= j < s.len() ==> e.0 < (#[trigger] s[j]).0,
    ensures
        ascending(s.insert(i, e)),
        as_map(s.insert(i, e)) == as_map(s).insert(e.0, (e.1, e.2)),
{
    let t = s.insert(i, e);
    assert forall|j: int| 0 <= j < t.len() implies #[trigger] t[j] == (if j < i {
        s[j]
    } else if j == i {
        e
    } else {
        s[j - 1]
    }) by {}
    assert(ascending(t));
    let m = as_map(t);
    let n = as_map(s).insert(e.0, (e.1, e.2));
    assert forall|k: u64| #[trigger] m.dom().contains(k) <==> n.dom().contains(k) by {
        if has_token(t, k) {
            let j = index_of_token(t, k);
            if j < i {
                assert(s[j].0 == k);
            } else if j > i {
                assert(s[j - 1].0 == k);
            }
        }
        if has_token(s, k) {
            let j = index_of_token(s, k);
            if j < i {
                assert(t[j].0 == k);
            } else {
                assert(t[j + 1].0 == k);
            }
        }
        assert(t[i].0 == e.0);
    }
    assert forall|k: u64| #[trigger] m.dom().contains(k) implies m[k] == n[k] by {
        let j = index_of_token(t, k);
        lemma_as_map(t, j);
        if j < i {
            lemma_as_map(s, j);
        } else if j > i {
            lemma_as_map(s, j - 1);
        }
    }
    assert(m =~= n);
}

impl<W, T> WakerSet<W, T> {
    /// The tokens ascend.
    pub closed spec fn wf(self) -> bool {
        ascending(self.waiters@)
    }

    /// The token that the next task gets.
    pub closed spec fn next_token(self) -> u64 {
        self.next_id
    }

    /// Creates a set without waiting tasks.
    pub fn new() -> (r: Self)
        ensures
            r.wf(),
            r@ == Map::<u64, (W, T)>::empty(),
            r.next_token() == 0,
    {
        let r = Self { waiters: Vec::new(), next_id: 0 };
        assert(r@ =~= Map::empty());
        r
    }

    fn allocate_id(&mut self) -> (r: u64)
        requires
            old(self).wf(),
        ensures
            final(self).wf(),
            final(self)@ == old(self)@,
            final(self).waiters == old(self).waiters,
            r == old(self).next_token(),
            final(self).next_token() == token_after(r),
    {
        let id: u64 = self.next_id;
        self.next_id = self.next_id.wrapping_add(1);
        id
    }

    /// Returns the index of the first waiter whose token is not smaller.
    fn position(&self, token: u64) -> (r: usize)
        requires
            self.wf(),
        ensures
            r <= self.waiters@.len(),
            forall|j: int| 0 <= j < r ==> (#[trigger] self.waiters@[j]).0 < token,
            forall|j: int| r <= j < self.waiters@.len() ==> token <= (#[trigger] self.waiters@[j]).0,
    {
        let mut i: usize = 0;
        while i < self.waiters.len() && self.waiters[i].0 < token
            invariant
                self.wf(),
                i <= self.waiters@.len(),
                forall|j: int| 0 <= j < i ==> (#[trigger] self.waiters@[j]).0 < token,
            decreases self.waiters@.len() - i,
        {
            i = i + 1;
        }
        i
    }

    /// Returns `true` if the task with the token is waiting.
    pub fn contains_token(&self, token: u64) -> (r: bool)
        requires
            self.wf(),
        ensures
            r == self@.dom().contains(token),
    {
        let i: usize = self.position(token);
        let found: bool = i < self.waiters.len() && self.waiters[i].0 == token;
        proof {
            let s = self.waiters@;
            if has_token(s, token) {
                let j = index_of_token(s, token);
                assert(i <= j);
                if i < j {
                    assert(s[i as int].0 < s[j].0);
                }
            }
        }
        found
    }

    /// Removes a waker using its token.
    pub fn remove(&mut self, token: u64)
        requires
            old(self).wf(),
        ensures
            final(self).wf(),
            final(self)@ == old(self)@.remove(token),
            final(self).next_token() == old(self).next_token(),
    {
        let i: usize = self.position(token);
        let ghost s = self.waiters@;
        if i < self.waiters.len() && self.waiters[i].0 == token {
            proof {
                lemma_remove(s, i as int);
            }
            let _ = self.waiters.remove(i);
        } else {
            proof {
                if has_token(s, token) {
                    let j = index_of_token(s, token);
                    assert(i <= j);
                    if i < j {
                        assert(s[i as int].0 < s[j].0);
                    }
                }
                assert(self@.remove(token) =~= self@);
            }
        }
    }

    /// Takes out one waiting task, if any: the one with the smallest token. Returns its
    /// waker.
    pub fn wake_one(&mut self) -> (r: Option<W>)
        requires
            old(self).wf(),
        ensures
            final(self).wf(),
            final(self).next_token() == old(self).next_token(),
            match r {
                Some(waker) => exists|token: u64| #[trigger]
                    is_first(old(self)@, token) && waker == old(self)@[token].0 && final(self)@
                        == old(self)@.remove(token),
                None => old(self)@ == Map::<u64, (W, T)>::empty() && final(self)@ == old(self)@,
            },
    {
        let ghost s = self.waiters@;
        if self.waiters.len() == 0 {
            assert(self@ =~= Map::empty());
            return None;
        }
        proof {
            lemma_remove(s, 0);
            lemma_as_map(s, 0);
            assert(is_first(as_map(s), s[0].0)) by {
                assert forall|k: u64| #[trigger] as_map(s).dom().contains(k) implies s[0].0 <= k by {
                    let j = index_of_token(s, k);
                    if j > 0 {
                        assert(s[0].0 < s[j].0);
                    }
                }
            }
        }
        let (_, waker, _) = self.waiters.remove(0);
        assert(is_first(old(self)@, s[0].0) && waker == old(self)@[s[0].0].0 && self@
            == old(self)@.remove(s[0].0));
        Some(waker)
    }

    /// Takes out all waiting tasks. Returns their wakers, in the order of the tokens.
    pub fn wake_all(&mut self) -> (r: Vec<W>)
        requires
            old(self).wf(),
        ensures
            final(self).wf(),
            final(self)@ == Map::<u64, (W, T)>::empty(),
            final(self).next_token() == old(self).next_token(),
            exists|tokens: Seq<u64>| #[trigger]
                in_order(old(self)@, tokens) && r@ == Seq::new(
                    tokens.len(),
                    |i: int| old(self)@[tokens[i]].0,
                ),
    {
        let ghost s = self.waiters@;
        assert(s.skip(0) =~= s);
        let mut wakers: Vec<W> = Vec::new();
        while self.waiters.len() > 0
            invariant
                ascending(s),
                self.waiters@ == s.skip(wakers@.len() as int),
                wakers@.len() <= s.len(),
                self.next_id == old(self).next_id,
                forall|i: int| 0 <= i < wakers@.len() ==> #[trigger] wakers@[i] == s[i].1,
            decreases self.waiters@.len(),
        {
            let (_, waker, _) = self.waiters.remove(0);
            assert(self.waiters@ =~= s.skip(wakers@.len() as int + 1));
            wakers.push(waker);
        }
        proof {
            let tokens = Seq::new(s.len(), |i: int| s[i].0);
            assert(in_order(as_map(s), tokens)) by {
                assert forall|k: u64| #[trigger] as_map(s).dom().contains(k)
                    <==> tokens.contains(k) by {
                    if has_token(s, k) {
                        let j = index_of_token(s, k);
                        assert(tokens[j] == k);
                    }
                    if tokens.contains(k) {
                        let j = choose|j: int| 0 <= j < tokens.len() && tokens[j] == k;
                        assert(s[j].0 == k);
                    }
                }
                assert forall|i: int, j: int| 0 <= i < j < tokens.len() implies tokens[i]
                    < tokens[j] by {
                    assert(s[i].0 < s[j].0);
                }
            }
            assert(wakers@ =~= Seq::new(tokens.len(), |i: int| as_map(s)[tokens[i]].0)) by {
                assert forall|i: int| 0 <= i < tokens.len() implies wakers@[i] == as_map(
                    s,
                )[tokens[i]].0 by {
                    lemma_as_map(s, i);
                }
            }
            assert(self@ =~= Map::empty());
            assert(in_order(old(self)@, tokens));
        }
        wakers
    }

    /// Applies `predicate` to what is known of the tasks, in the order of their tokens.
    /// Takes out the first one for which it returns `true`, and returns its waker;
    /// `None` if there is no such task.
    pub fn wake_if<F: Fn(&T) -> bool>(&mut self, predicate: F) -> (r: Option<W>)
        requires
            old(self).wf(),
            forall|t: &T| #[trigger] predicate.requires((t,)),
        ensures
            final(self).wf(),
            final(self).next_token() == old(self).next_token(),
            match r {
                Some(waker) => exists|token: u64| #[trigger]
                    old(self)@.dom().contains(token) && {
                        &&& predicate.ensures((&old(self)@[token].1,), true)
                        &&& forall|k: u64| #[trigger]
                            old(self)@.dom().contains(k) && k < token ==> predicate.ensures(
                                (&old(self)@[k].1,),
                                false,
                            )
                        &&& waker == old(self)@[token].0
                        &&& final(self)@ == old(self)@.remove(token)
                    },
                None => final(self)@ == old(self)@ && forall|k: u64| #[trigger]
                    old(self)@.dom().contains(k) ==> predicate.ensures((&old(self)@[k].1,), false),
            },
    {
        let ghost s = self.waiters@;
        let mut i: usize = 0;
        while i < self.waiters.len()
            invariant
                *self == *old(self),
                self.waiters@ == s,
                ascending(s),
                i <= s.len(),
                forall|t: &T| #[trigger] predicate.requires((t,)),
                forall|j: int| 0 <= j < i ==> predicate.ensures((&(#[trigger] s[j]).2,), false),
            decreases s.len() - i,
        {
            let hit: bool = predicate(&self.waiters[i].2);
            if hit {
                proof {
                    lemma_remove(s, i as int);
                    lemma_as_map(s, i as int);
                    let m = as_map(s);
                    let token = s[i as int].0;
                    assert forall|k: u64| #[trigger] m.dom().contains(k) && k
                        < token implies predicate.ensures((&m[k].1,), false) by {
                        let j = index_of_token(s, k);
                        lemma_as_map(s, j);
                        if i < j {
                            assert(s[i as int].0 < s[j].0);
                        }
                        assert(s[j].0 == k);
                    }
                    assert(m.dom().contains(token));
                }
                let (_, waker, _) = self.waiters.remove(i);
                proof {
                    let token = s[i as int].0;
                    assert(old(self)@.dom().contains(token));
                    assert(waker == old(self)@[token].0);
                    assert(self@ == old(self)@.remove(token));
                    assert(predicate.ensures((&old(self)@[token].1,), true));
                }
                return Some(waker);
            }
            i = i + 1;
        }
        proof {
            let m = as_map(s);
            assert forall|k: u64| #[trigger] m.dom().contains(k) implies predicate.ensures(
                (&m[k].1,),
                false,
            ) by {
                let j = index_of_token(s, k);
                lemma_as_map(s, j);
                assert(s[j].0 == k);
            }
        }
        None
    }

    /// Adds a waiting task, and returns its token.
    pub fn register_with_data(&mut self, waker: W, data: T) -> (r: u64)
        requires
            old(self).wf(),
        ensures
            final(self).wf(),
            r == old(self).next_token(),
            final(self)@ == old(self)@.insert(r, (waker, data)),
            final(self).next_token() == token_after(r),
    {
        let id: u64 = self.allocate_id();
        // A task that still waits with the same token is replaced.
        self.remove(id);
        let i: usize = self.position(id);
        proof {
            let s = self.waiters@;
            assert forall|j: int| i <= j < s.len() implies id < (#[trigger] s[j]).0 by {
                lemma_as_map(s, j);
            }
            lemma_insert(s, i as int, (id, waker, data));
            assert(old(self)@.remove(id).insert(id, (waker, data)) =~= old(self)@.insert(
                id,
                (waker, data),
            ));
        }
        self.waiters.insert(i, (id, waker, data));
        id
    }

    /// Returns `true` if no task is waiting.
    pub fn is_empty(&self) -> (r: bool)
        requires
            self.wf(),
        ensures
            r <==> self@ == Map::<u64, (W, T)>::empty(),
    {
        proof {
            if self.waiters@.len() == 0 {
                assert(self@ =~= Map::empty());
            } else {
                lemma_as_map(self.waiters@, 0);
            }
        }
        self.waiters.len() == 0
    }
}

impl<W> WakerSet<W, ()> {
    /// Registers a waker, returning its token.
    pub fn register(&mut self, waker: W) -> (r: u64)
        requires
            old(self).wf(),
        ensures
            final(self).wf(),
            r == old(self).next_token(),
            final(self)@ == old(self)@.insert(r, (waker, ())),
            final(self).next_token() == token_after(r),
    {
        self.register_with_data(waker, ())
    }
}

impl<W> Default for WakerSet<W, ()> {
    fn default() -> (r: Self)
        ensures
            r.wf(),
            r@ == Map::<u64, (W, ())>::empty(),
            r.next_token() == 0,
    {
        Self::new()
    }
}

/// A wait for a condition on a shared state that holds a [`WakerSet`].
///
/// It is polled with what the condition says of the state, until that is a result.
/// Whoever gives the wait up before has to [cancel](WaitUntil::cancel) it.
pub struct WaitUntil {
    token: Option<u64>,
}

/// Starts to wait for a condition.
pub fn wait_until() -> (r: WaitUntil)
    ensures
        r.registered() is None,
{
    WaitUntil { token: None }
}

impl WaitUntil {
    /// The token of the wait in the set, once it has been registered.
    pub closed spec fn registered(self) -> Option<u64> {
        self.token
    }

    /// Ends with the result, if the condition is met. Otherwise `None` is returned, and
    /// the waker is registered in the set if it has not been yet.
    pub fn poll<R, W>(&mut self, result: Option<R>, waker_set: &mut WakerSet<W, ()>, waker: W) -> (r:
        Option<R>)
        requires
            old(waker_set).wf(),
        ensures
            final(waker_set).wf(),
            r == result,
            ({
                let waits = result is None && old(self).registered() is None;
                &&& waits ==> {
                    &&& final(self).registered() == Some(old(waker_set).next_token())
                    &&& final(waker_set)@ == old(waker_set)@.insert(
                        old(waker_set).next_token(),
                        (waker, ()),
                    )
                    &&& final(waker_set).next_token() == token_after(old(waker_set).next_token())
                }
                &&& !waits ==> {
                    &&& final(self).registered() == old(self).registered()
                    &&& *final(waker_set) == *old(waker_set)
                }
            }),
    {
        // Check the condition first.
        match result {
            Some(result) => return Some(result),
            None => {},
        }
        // If the condition is not met, register our waker if we haven't already.
        match self.token {
            None => {
                let id: u64 = waker_set.register(waker);
                self.token = Some(id);
            },
            Some(_) => {},
        }
        None
    }

    /// Ends the wait: it is removed from the set if it is registered.
    pub fn cancel<W>(self, waker_set: &mut WakerSet<W, ()>)
        requires
            old(waker_set).wf(),
        ensures
            final(waker_set).wf(),
            final(waker_set).next_token() == old(waker_set).next_token(),
            match self.registered() {
                Some(token) => final(waker_set)@ == old(waker_set)@.remove(token),
                None => final(waker_set)@ == old(waker_set)@,
            },
    {
        match self.token {
            Some(token) => waker_set.remove(token),
            None => {},
        }
    }
}

/// A task that registers is woken after all tasks that were waiting, as long as tokens
/// do not wrap around.
pub proof fn later_tasks_are_woken_later<V>(m: Map<u64, V>, token: u64, v: V, first: u64)
    requires
        forall|k: u64| #[trigger] m.dom().contains(k) ==> k < token,
        m.dom().contains(first),
    ensures
        is_first(m.insert(token, v), first) <==> is_first(m, first),
        !is_first(m.insert(token, v), token),
{
    let n = m.insert(token, v);
    if is_first(n, first) {
        assert forall|k: u64| #[trigger] m.dom().contains(k) implies first <= k by {
            assert(n.dom().contains(k));
        }
    }
    assert(n.dom().contains(first));
}

/// Cancelling a wait right after it was registered leaves no trace of it.
pub proof fn cancel_undoes_register<V>(m: Map<u64, V>, token: u64, v: V)
    requires
        !m.dom().contains(token),
    ensures
        m.insert(token, v).remove(token) == m,
{
    assert(m.insert(token, v).remove(token) =~= m);
}

/// Each token is larger than the one before, until they start again at 0.
pub proof fn tokens_go_up(token: u64)
    ensures
        token < u64::MAX ==> token_after(token) == token + 1,
        token == u64::MAX ==> token_after(token) == 0,
{
}

} // verus!
