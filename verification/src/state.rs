//! The search/selection state machine: the query buffer, the ranked result
//! list recomputed on every query edit, and the wraparound selection cursor.

use vstd::prelude::*;

use crate::rank::fuzzy_score;
use crate::rank::lemma_ranked_membership;
use crate::rank::lemma_ranked_sorted;
use crate::rank::ranked;
use crate::rank::ranks_before;
use crate::rank::result_ok;
use crate::rank::score_of;
use crate::rank::score_val;

verus! {

/// A cursor movement: one step down, one step up, or stay (used only to
/// reconcile the cursor after the result list was recomputed).
pub enum Dir {
    Up,
    Down,
    Same,
}

/// The index the selection cursor takes after a move in direction `dir`,
/// given the current selection `sel` and the result-list length `n`. With an
/// empty list the cursor is parked at 0 (a placeholder that consumers must
/// not dereference); otherwise movement wraps around, and `Same` clamps an
/// out-of-range index to the last element.
pub open spec fn next_index(sel: Option<usize>, n: int, dir: Dir) -> int {
    if n <= 0 {
        0
    } else {
        match sel {
            None => 0,
            Some(i) => match dir {
                Dir::Down => if i as int >= n - 1 { 0 } else { i as int + 1 },
                Dir::Up => if i as int == 0 { n - 1 } else { i as int - 1 },
                Dir::Same => if i as int > n - 1 { n - 1 } else { i as int },
            },
        }
    }
}

/// The search controller's state: the query, the full candidate set, the
/// ranked result list, and the selection cursor.
pub struct State {
    /// The query buffer; grows and shrinks only at its end.
    pub input: String,
    /// The full candidate set, in the order it was supplied.
    pub keys: Vec<String>,
    /// The candidates matching the current query, ranked by descending score.
    pub filtered_keys: Vec<String>,
    /// The selection cursor into `filtered_keys`.
    pub selected: Option<usize>,
}

impl State {
    /// The cursor, when set, is dereferenceable whenever the result list is
    /// non-empty.
    pub open spec fn cursor_ok(self) -> bool {
        match self.selected {
            None => true,
            Some(i) => self.filtered_keys@.len() == 0 || (i as int) < self.filtered_keys@.len(),
        }
    }

    /// Well-formed: the result list is the ranked filtering of the candidate
    /// set by the current query, and the cursor is in range.
    pub open spec fn wf(self) -> bool {
        &&& result_ok(self.keys@, self.input@, self.filtered_keys@)
        &&& self.cursor_ok()
    }

    /// The currently selected candidate, if the cursor points at one.
    pub open spec fn selection(self) -> Option<String> {
        match self.selected {
            Some(i) => if (i as int) < self.filtered_keys@.len() {
                Some(self.filtered_keys@[i as int])
            } else {
                None
            },
            None => None,
        }
    }

    /// A fresh controller: empty query, no candidates, no selection.
    pub fn new() -> (s: State)
        ensures
            s.input@ =~= Seq::<char>::empty(),
            s.keys@ =~= Seq::<String>::empty(),
            s.filtered_keys@ =~= Seq::<String>::empty(),
            s.selected is None,
            s.wf(),
    {
        let s = State {
            input: String::new(),
            keys: Vec::new(),
            filtered_keys: Vec::new(),
            selected: None,
        };
        proof {
            assert(ranked(s.keys@, s.input@, s.filtered_keys@, Seq::<int>::empty()));
        }
        s
    }

    /// Recomputes the result list from the full candidate set and the current
    /// query, then reconciles the cursor: every matching candidate, ranked by
    /// descending score, candidates of equal score in their original order.
    /// An empty query matches everything with one score, so it reproduces the
    /// candidate set itself.
    #[verifier::loop_isolation(false)]
    fn filter(&mut self)
        ensures
            final(self).input == old(self).input,
            final(self).keys == old(self).keys,
            result_ok(final(self).keys@, final(self).input@, final(self).filtered_keys@),
            final(self).selected == Some(
                next_index(old(self).selected, final(self).filtered_keys@.len() as int, Dir::Same) as usize,
            ),
            final(self).cursor_ok(),
            final(self).input@.len() == 0 ==> final(self).filtered_keys@ == old(self).keys@,
    {
        let ghost q = self.input@;
        let ghost ks = self.keys@;
        let n = self.keys.len();
        let mut pairs: Vec<(usize, i64)> = Vec::new();
        let mut i: usize = 0;
        while i < n
            invariant
                i <= n,
                pairs_ok(pairs@, ks, q, i as int),
                q.len() == 0 ==> pairs@.len() == i as int,
                q.len() == 0 ==> forall|a: int| 0 <= a < pairs@.len() ==> #[trigger] pairs@[a] == (a as usize, 0i64),
            decreases n - i,
        {
            if let Some(s) = fuzzy_score(&self.keys[i], &self.input) {
                let mut p: usize = 0;
                while p < pairs.len() && pairs[p].1 >= s
                    invariant
                        p <= pairs@.len(),
                        forall|a: int| 0 <= a < p ==> (#[trigger] pairs@[a]).1 >= s,
                    decreases pairs@.len() - p,
                {
                    p = p + 1;
                }
                let ghost prev = pairs@;
                pairs.insert(p, (i, s));
                proof {
                    let cur = pairs@;
                    prev.insert_ensures(p as int, (i, s));
                    if q.len() == 0 {
                        assert(s == 0);
                        if (p as int) < prev.len() {
                            assert(prev[p as int] == (p as usize, 0i64));
                            assert(false);
                        }
                        assert forall|a: int| 0 <= a < cur.len() implies #[trigger] cur[a] == (
                            a as usize,
                            0i64,
                        ) by {
                            if a < p as int {
                                assert(cur[a] == prev[a]);
                            } else {
                                assert(a == p as int);
                                assert(cur[a] == (i, s));
                            }
                        }
                    }
                    assert forall|a: int| 0 <= a < cur.len() implies ((#[trigger] cur[a]).0 as int) < i
                        + 1 && score_of(ks[cur[a].0 as int]@, q) == Some(cur[a].1) by {
                        if a < p as int {
                            assert(cur[a] == prev[a]);
                        } else if a == p as int {
                            assert(cur[a] == (i, s));
                        } else {
                            assert(cur[a] == prev[a - 1]);
                        }
                    }
                    assert forall|a: int, b: int| 0 <= a < b < cur.len() implies pair_before(
                        #[trigger] cur[a],
                        #[trigger] cur[b],
                    ) by {
                        if b < p as int {
                            assert(cur[a] == prev[a] && cur[b] == prev[b]);
                        } else if a < p as int && b == p as int {
                            assert(cur[a] == prev[a] && cur[b] == (i, s));
                            assert(prev[a].1 >= s);
                            assert((prev[a].0 as int) < i as int);
                        } else if a < p as int && b > p as int {
                            assert(cur[a] == prev[a] && cur[b] == prev[b - 1]);
                        } else if a == p as int {
                            assert(cur[a] == (i, s) && cur[b] == prev[b - 1]);
                            assert(prev[p as int].1 < s);
                            if b - 1 > p as int {
                                assert(pair_before(prev[p as int], prev[b - 1]));
                            }
                        } else {
                            assert(cur[a] == prev[a - 1] && cur[b] == prev[b - 1]);
                        }
                    }
                    assert forall|k: int|
                        0 <= k < i + 1 && #[trigger] score_of(ks[k]@, q) is Some implies exists|a: int|
                        0 <= a < cur.len() && ((#[trigger] cur[a]).0 as int) == k by {
                        if k == i as int {
                            assert(cur[p as int] == (i, s));
                            assert(((cur[p as int]).0 as int) == k);
                        } else {
                            let a0 = choose|a0: int|
                                0 <= a0 < prev.len() && ((#[trigger] prev[a0]).0 as int) == k;
                            if a0 < p as int {
                                assert(cur[a0] == prev[a0]);
                                assert(((cur[a0]).0 as int) == k);
                            } else {
                                assert(cur[a0 + 1] == prev[a0]);
                                assert(((cur[a0 + 1]).0 as int) == k);
                            }
                        }
                    }
                }
            }
            i = i + 1;
        }
        let mut filtered: Vec<String> = Vec::new();
        let mut j: usize = 0;
        while j < pairs.len()
            invariant
                j <= pairs@.len(),
                filtered@.len() == j as int,
                forall|a: int| 0 <= a < j ==> #[trigger] filtered@[a] == ks[pairs@[a].0 as int],
            decreases pairs@.len() - j,
        {
            let idx = pairs[j].0;
            let item = self.keys[idx].clone();
            filtered.push(item);
            j = j + 1;
        }
        self.filtered_keys = filtered;
        proof {
            let fin = self.filtered_keys@;
            let perm = Seq::new(pairs@.len() as nat, |a: int| pairs@[a].0 as int);
            assert forall|a: int, b: int| 0 <= a < b < perm.len() implies ranks_before(
                ks,
                q,
                #[trigger] perm[a],
                #[trigger] perm[b],
            ) by {
                assert(pair_before(pairs@[a], pairs@[b]));
            }
            assert forall|k: int| 0 <= k < ks.len() && #[trigger] score_of(ks[k]@, q) is Some
                implies exists|a: int| 0 <= a < perm.len() && #[trigger] perm[a] == k by {
                let a0 = choose|a0: int| 0 <= a0 < pairs@.len() && ((#[trigger] pairs@[a0]).0 as int) == k;
                assert(perm[a0] == k);
            }
            assert(ranked(ks, q, fin, perm));
            if q.len() == 0 {
                assert forall|a: int| 0 <= a < fin.len() implies #[trigger] fin[a] == ks[a] by {
                    assert(pairs@[a] == (a as usize, 0i64));
                }
                assert(fin =~= ks);
            }
        }
        self.move_index(Dir::Same);
    }

    /// Installs the candidate set, supplied once by the repository
    /// collaborator, then computes the initial result list and cursor.
    pub fn load_keys(&mut self, keys: Vec<String>)
        ensures
            final(self).keys@ == keys@,
            final(self).input == old(self).input,
            final(self).selected == Some(
                next_index(old(self).selected, final(self).filtered_keys@.len() as int, Dir::Same) as usize,
            ),
            final(self).wf(),
            final(self).input@.len() == 0 ==> final(self).filtered_keys@ == keys@,
    {
        self.keys = keys;
        self.filter();
    }

    /// Appends one character at the end of the query, recomputes the result
    /// list, and reconciles the cursor.
    pub fn enter_char(&mut self, new_char: char)
        ensures
            final(self).input@ == old(self).input@.push(new_char),
            final(self).keys == old(self).keys,
            final(self).selected == Some(
                next_index(old(self).selected, final(self).filtered_keys@.len() as int, Dir::Same) as usize,
            ),
            final(self).wf(),
    {
        push_char(&mut self.input, new_char);
        self.filter();
    }

    /// Removes the last character of the query, if any, recomputes the result
    /// list, and reconciles the cursor. On an empty query it changes nothing
    /// at all.
    pub fn delete_char(&mut self)
        ensures
            old(self).input@.len() == 0 ==> *final(self) == *old(self),
            old(self).input@.len() > 0 ==> final(self).input@ == old(self).input@.drop_last(),
            old(self).input@.len() > 0 ==> final(self).keys == old(self).keys,
            old(self).input@.len() > 0 ==> final(self).selected == Some(
                next_index(old(self).selected, final(self).filtered_keys@.len() as int, Dir::Same) as usize,
            ),
            old(self).input@.len() > 0 ==> final(self).wf(),
            old(self).input@.len() == 1 ==> final(self).filtered_keys@ == old(self).keys@,
    {
        if !self.input.as_str().is_empty() {
            pop_char(&mut self.input);
            self.filter();
        }
    }

    /// Moves the selection cursor: wraparound `Up`/`Down` navigation, or
    /// `Same` to reconcile the cursor with the current result-list length.
    /// Explicit navigation expects an in-range cursor; `Same` accepts any.
    pub fn move_index(&mut self, dir: Dir)
        requires
            dir is Same || old(self).cursor_ok(),
        ensures
            final(self).input == old(self).input,
            final(self).keys == old(self).keys,
            final(self).filtered_keys == old(self).filtered_keys,
            final(self).selected == Some(
                next_index(old(self).selected, old(self).filtered_keys@.len() as int, dir) as usize,
            ),
            final(self).cursor_ok(),
    {
        let len = self.filtered_keys.len();
        if len == 0 {
            self.selected = Some(0);
        } else {
            let next: usize = match dir {
                Dir::Down => match self.selected {
                    Some(i) => if i >= len - 1 { 0 } else { i + 1 },
                    None => 0,
                },
                Dir::Up => match self.selected {
                    Some(i) => if i == 0 { len - 1 } else { i - 1 },
                    None => 0,
                },
                Dir::Same => match self.selected {
                    Some(i) => if i > len - 1 { len - 1 } else { i },
                    None => 0,
                },
            };
            self.selected = Some(next);
        }
    }

    /// Reads the candidate under the cursor: the confirm action. With an
    /// empty result list there is no selection, whatever the cursor holds.
    pub fn confirm(&self) -> (r: Option<String>)
        ensures
            r == self.selection(),
    {
        match self.selected {
            Some(i) => if i < self.filtered_keys.len() {
                Some(self.filtered_keys[i].clone())
            } else {
                None
            },
            None => None,
        }
    }
}

/// A pair (position in the candidate set, score) ranks strictly before
/// another: a higher score, or an equal score and an earlier position.
spec fn pair_before(x: (usize, i64), y: (usize, i64)) -> bool {
    x.1 > y.1 || (x.1 == y.1 && x.0 < y.0)
}

/// The scored pairs gathered while ranking the first `bound` candidates:
/// every pair records a matching candidate and its score, the pairs are
/// strictly ordered, and every matching candidate below `bound` appears.
spec fn pairs_ok(pairs: Seq<(usize, i64)>, keys: Seq<String>, query: Seq<char>, bound: int) -> bool {
    &&& (forall|a: int| 0 <= a < pairs.len() ==> ((#[trigger] pairs[a]).0 as int) < bound)
    &&& (forall|a: int|
        0 <= a < pairs.len() ==> score_of(keys[(#[trigger] pairs[a]).0 as int]@, query) == Some(pairs[a].1))
    &&& (forall|a: int, b: int|
        0 <= a < b < pairs.len() ==> pair_before(#[trigger] pairs[a], #[trigger] pairs[b]))
    &&& (forall|k: int|
        0 <= k < bound && #[trigger] score_of(keys[k]@, query) is Some
            ==> exists|a: int| 0 <= a < pairs.len() && ((#[trigger] pairs[a]).0 as int) == k)
}

/// Relies on String::push: appends the character at the end of the buffer.
#[verifier::external_body]
fn push_char(s: &mut String, c: char)
    ensures
        final(s)@ == old(s)@.push(c),
{
    s.push(c);
}

/// Relies on String::pop: removes and returns the last character, or returns
/// None and leaves the string alone when it is empty.
#[verifier::external_body]
fn pop_char(s: &mut String) -> (r: Option<char>)
    ensures
        old(s)@.len() == 0 ==> final(s)@ == old(s)@ && r is None,
        old(s)@.len() > 0 ==> final(s)@ == old(s)@.drop_last() && r == Some(old(s)@.last()),
{
    s.pop()
}

/// Wraparound navigation: with a non-empty result list and an in-range
/// cursor, `Down` moves to `(i + 1) % n`, `Up` to `(i - 1 + n) % n`, and
/// either move followed by its inverse returns to `i`.
pub proof fn lemma_wraparound(i: usize, n: usize)
    requires
        0 < n,
        (i as int) < n as int,
    ensures
        next_index(Some(i), n as int, Dir::Down) == (i as int + 1) % (n as int),
        next_index(Some(i), n as int, Dir::Up) == (i as int + n as int - 1) % (n as int),
        next_index(Some(next_index(Some(i), n as int, Dir::Down) as usize), n as int, Dir::Up) == i as int,
        next_index(Some(next_index(Some(i), n as int, Dir::Up) as usize), n as int, Dir::Down) == i as int,
{
    let ni = n as int;
    let ii = i as int;
    if ii == ni - 1 {
        vstd::arithmetic::div_mod::lemma_mod_self_0(ni);
        assert((ii + 1) % ni == 0);
    } else {
        vstd::arithmetic::div_mod::lemma_small_mod((ii + 1) as nat, ni as nat);
    }
    if ii == 0 {
        vstd::arithmetic::div_mod::lemma_small_mod((ni - 1) as nat, ni as nat);
    } else {
        vstd::arithmetic::div_mod::lemma_mod_multiples_vanish(1, ii - 1, ni);
        vstd::arithmetic::div_mod::lemma_small_mod((ii - 1) as nat, ni as nat);
        assert(ni * 1 + (ii - 1) == ii + ni - 1);
    }
}

/// In a well-formed state every entry of the result list matches the current
/// query, comes from the candidate set, and the list is sorted by
/// non-increasing score.
pub proof fn lemma_result_list(s: State)
    requires
        s.wf(),
    ensures
        forall|j: int|
            0 <= j < s.filtered_keys@.len() ==> score_of(#[trigger] s.filtered_keys@[j]@, s.input@) is Some,
        forall|j: int| 0 <= j < s.filtered_keys@.len() ==> s.keys@.contains(#[trigger] s.filtered_keys@[j]),
        forall|a: int, b: int|
            0 <= a < b < s.filtered_keys@.len() ==> score_val(#[trigger] s.filtered_keys@[b]@, s.input@)
                <= score_val(#[trigger] s.filtered_keys@[a]@, s.input@),
{
    let perm = choose|perm: Seq<int>| ranked(s.keys@, s.input@, s.filtered_keys@, perm);
    lemma_ranked_membership(s.keys@, s.input@, s.filtered_keys@, perm);
    lemma_ranked_sorted(s.keys@, s.input@, s.filtered_keys@, perm);
}

/// With an empty result list there is never a selection, whatever index the
/// cursor was parked at.
pub proof fn lemma_empty_no_selection(s: State)
    requires
        s.filtered_keys@.len() == 0,
    ensures
        s.selection() is None,
{
}

/// Reconciliation after the result list shrinks to a non-zero length `n`: an
/// out-of-range cursor is clamped to the last element, an in-range cursor is
/// unchanged.
pub proof fn lemma_reconcile(i: usize, n: usize)
    requires
        0 < n,
    ensures
        i as int >= n as int ==> next_index(Some(i), n as int, Dir::Same) == n - 1,
        (i as int) < n as int ==> next_index(Some(i), n as int, Dir::Same) == i as int,
{
}

} // verus!
