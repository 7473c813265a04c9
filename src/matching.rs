//! The match engine: which items a query matches, where it matches them, and
//! in which order the matches are listed.

use vstd::prelude::*;
use fuzzy_matcher::clangd::ClangdMatcher;
use fuzzy_matcher::FuzzyMatcher;

verus! {

/// Letters compare without regard to ASCII case: an upper-case ASCII letter
/// folds to its lower-case form, every other character stands for itself.
pub open spec fn fold_char(c: char) -> int {
    if 65 <= (c as u32) && (c as u32) <= 90 {
        (c as u32) + 32
    } else {
        c as int
    }
}

/// Two characters are equal up to ASCII case.
pub open spec fn same_folded(a: char, b: char) -> bool {
    fold_char(a) == fold_char(b)
}

/// `pos` picks, for each character of `q` in turn, a strictly later character
/// of `s` that equals it up to ASCII case.
pub open spec fn is_embedding(q: Seq<char>, s: Seq<char>, pos: Seq<usize>) -> bool {
    &&& pos.len() == q.len()
    &&& forall|i: int| 0 <= i < pos.len() ==> (#[trigger] pos[i]) < s.len()
    &&& forall|i: int, j: int| 0 <= i < j < pos.len() ==> pos[i] < pos[j]
    &&& forall|i: int| 0 <= i < pos.len() ==> same_folded(q[i], s[#[trigger] pos[i] as int])
}

/// `q` is a subsequence of `s`, characters compared up to ASCII case.
pub open spec fn is_subsequence_ci(q: Seq<char>, s: Seq<char>) -> bool {
    exists|pos: Seq<usize>| is_embedding(q, s, pos)
}

/// The text shown for an item: its key, a separator, and its value.
pub open spec fn display_of(key: Seq<char>, value: Seq<char>) -> Seq<char> {
    key + seq![' ', ':', ' '] + value
}

/// What the clangd-style fuzzy matcher returns for a choice and a pattern:
/// nothing where it rejects the choice, else a score and the indices of the
/// characters of the choice that it matched.
pub uninterp spec fn clangd_indices(choice: Seq<char>, pattern: Seq<char>) -> Option<(i64, Seq<usize>)>;

/// Relies on fuzzy_matcher's `ClangdMatcher::fuzzy_indices`, on a matcher in
/// its default (case-ignoring) setting: its result depends on the two strings
/// alone.
#[verifier::external_body]
fn fuzzy_indices(choice: &str, pattern: &str) -> (r: Option<(i64, Vec<usize>)>)
    ensures
        match r {
            None => clangd_indices(choice@, pattern@) is None,
            Some((score, indices)) => clangd_indices(choice@, pattern@) == Some((score, indices@)),
        },
{
    ClangdMatcher::default().fuzzy_indices(choice, pattern)
}

/// The characters of `s`, in order.
fn chars_of(s: &str) -> (r: Vec<char>)
    ensures
        r@ == s@,
{
    let mut out: Vec<char> = Vec::new();
    for c in it: s.chars()
        invariant
            it.seq() == s@,
            out@ == s@.take(it.index() as int),
    {
        out.push(c);
        assert(s@.take(it.index() + 1) =~= out@);
    }
    assert(out@ =~= s@);
    out
}

fn fold(c: char) -> (r: u32)
    ensures
        r as int == fold_char(c),
{
    let v = c as u32;
    if 65 <= v && v <= 90 {
        v + 32
    } else {
        v
    }
}

/// Tells whether `pos` embeds `q` into `s` (see `is_embedding`).
pub fn check_embedding(q: &Vec<char>, s: &Vec<char>, pos: &Vec<usize>) -> (r: bool)
    ensures
        r == is_embedding(q@, s@, pos@),
{
    if pos.len() != q.len() {
        return false;
    }
    let mut i: usize = 0;
    while i < pos.len()
        invariant
            pos@.len() == q@.len(),
            i <= pos@.len(),
            forall|k: int| 0 <= k < i ==> (#[trigger] pos@[k]) < s@.len(),
            forall|a: int, b: int| 0 <= a < b < i ==> pos@[a] < pos@[b],
            forall|k: int| 0 <= k < i ==> same_folded(q@[k], s@[#[trigger] pos@[k] as int]),
        decreases pos@.len() - i,
    {
        let p = pos[i];
        if p >= s.len() {
            return false;
        }
        if i > 0 && pos[i - 1] >= p {
            return false;
        }
        if fold(q[i]) != fold(s[p]) {
            return false;
        }
        i += 1;
    }
    true
}

/// One item of the picker: a unique key and the value it stands for.
pub struct Item {
    pub key: String,
    pub value: String,
}

impl View for Item {
    type V = (Seq<char>, Seq<char>);

    open spec fn view(&self) -> (Seq<char>, Seq<char>) {
        (self.key@, self.value@)
    }
}

/// A matching item: its key and value, the matcher's score (higher is
/// better), the positions in the key that the query consumed, and the text
/// to show for it.
pub struct MatchResult {
    pub key: String,
    pub value: String,
    pub score: i64,
    pub positions: Vec<usize>,
    pub display: String,
}

/// The mathematical content of a `MatchResult`.
pub struct MatchView {
    pub key: Seq<char>,
    pub value: Seq<char>,
    pub score: int,
    pub positions: Seq<usize>,
    pub display: Seq<char>,
}

impl View for MatchResult {
    type V = MatchView;

    open spec fn view(&self) -> MatchView {
        MatchView {
            key: self.key@,
            value: self.value@,
            score: self.score as int,
            positions: self.positions@,
            display: self.display@,
        }
    }
}

/// The items as (key, value) character sequences.
pub open spec fn items_view(items: Seq<Item>) -> Seq<(Seq<char>, Seq<char>)> {
    items.map_values(|it: Item| it@)
}

/// The entries as `MatchView`s.
pub open spec fn results_view(rs: Seq<MatchResult>) -> Seq<MatchView> {
    rs.map_values(|m: MatchResult| m@)
}

/// The entry listed for an item, with no regard to a query.
pub open spec fn plain_entry(item: (Seq<char>, Seq<char>)) -> MatchView {
    MatchView {
        key: item.0,
        value: item.1,
        score: 0,
        positions: Seq::empty(),
        display: display_of(item.0, item.1),
    }
}

/// The entry for an item, given what the matcher returned for its key and the
/// query: none where the matcher rejects it, or where its indices do not
/// embed the query into the key.
pub open spec fn entry_from(
    item: (Seq<char>, Seq<char>),
    q: Seq<char>,
    outcome: Option<(i64, Seq<usize>)>,
) -> Option<MatchView> {
    match outcome {
        None => None,
        Some((score, pos)) => if is_embedding(q, item.0, pos) {
            Some(
                MatchView {
                    key: item.0,
                    value: item.1,
                    score: score as int,
                    positions: pos,
                    display: display_of(item.0, item.1),
                },
            )
        } else {
            None
        },
    }
}

/// The entry for an item under `q`, as the matcher decides.
pub open spec fn entry_spec(item: (Seq<char>, Seq<char>), q: Seq<char>) -> Option<MatchView> {
    entry_from(item, q, clangd_indices(item.0, q))
}

/// The entries of the items that `q` matches, in the items' order.
pub open spec fn matched(items: Seq<(Seq<char>, Seq<char>)>, q: Seq<char>) -> Seq<MatchView>
    decreases items.len(),
{
    if items.len() == 0 {
        Seq::empty()
    } else {
        let rest = matched(items.drop_last(), q);
        match entry_spec(items.last(), q) {
            Some(m) => rest.push(m),
            None => rest,
        }
    }
}

/// Puts `e` after every entry of `s` that scores at least as high, and before
/// the first that scores lower.
pub open spec fn insert_ranked(s: Seq<MatchView>, e: MatchView) -> Seq<MatchView>
    decreases s.len(),
{
    if s.len() == 0 {
        seq![e]
    } else if s[0].score < e.score {
        seq![e] + s
    } else {
        seq![s[0]] + insert_ranked(s.drop_first(), e)
    }
}

/// The entries by score, highest first; equal scores keep their order.
pub open spec fn ranked(s: Seq<MatchView>) -> Seq<MatchView>
    decreases s.len(),
{
    if s.len() == 0 {
        Seq::empty()
    } else {
        insert_ranked(ranked(s.drop_last()), s.last())
    }
}

/// What a search lists: for the empty query every item, in order, unscored;
/// else the matching items, ranked.
pub open spec fn search_spec(items: Seq<(Seq<char>, Seq<char>)>, q: Seq<char>) -> Seq<MatchView> {
    if q.len() == 0 {
        items.map_values(|it: (Seq<char>, Seq<char>)| plain_entry(it))
    } else {
        ranked(matched(items, q))
    }
}

fn display_text(item: &Item) -> (r: String)
    ensures
        r@ == display_of(item.key@, item.value@),
{
    let mut d = item.key.clone();
    d.append(" : ");
    d.append(item.value.as_str());
    proof {
        reveal_strlit(" : ");
    }
    d
}

/// The unscored entry of an item.
pub fn plain_result(item: &Item) -> (r: MatchResult)
    ensures
        r@ == plain_entry(item@),
{
    MatchResult {
        key: item.key.clone(),
        value: item.value.clone(),
        score: 0,
        positions: Vec::new(),
        display: display_text(item),
    }
}

/// The entry for `item` given the matcher's outcome on its key and `query`.
pub fn match_entry(item: &Item, query: &str, outcome: Option<(i64, Vec<usize>)>) -> (r: Option<
    MatchResult,
>)
    ensures
        match r {
            None => entry_from(item@, query@, outcome_view(outcome)) is None,
            Some(m) => entry_from(item@, query@, outcome_view(outcome)) == Some(m@),
        },
{
    match outcome {
        None => None,
        Some((score, positions)) => {
            let q = chars_of(query);
            let k = chars_of(item.key.as_str());
            if check_embedding(&q, &k, &positions) {
                Some(
                    MatchResult {
                        key: item.key.clone(),
                        value: item.value.clone(),
                        score,
                        positions,
                        display: display_text(item),
                    },
                )
            } else {
                None
            }
        },
    }
}

/// The matcher's outcome with its index vector seen as a sequence.
pub open spec fn outcome_view(outcome: Option<(i64, Vec<usize>)>) -> Option<(i64, Seq<usize>)> {
    match outcome {
        None => None,
        Some((score, pos)) => Some((score, pos@)),
    }
}

/// The entry for `item` under `query`, as the matcher decides.
pub fn entry_for(item: &Item, query: &str) -> (r: Option<MatchResult>)
    ensures
        match r {
            None => entry_spec(item@, query@) is None,
            Some(m) => entry_spec(item@, query@) == Some(m@),
        },
{
    let outcome = fuzzy_indices(item.key.as_str(), query);
    match_entry(item, query, outcome)
}

proof fn lemma_insert_at(s: Seq<MatchView>, e: MatchView, i: int)
    requires
        0 <= i <= s.len(),
        forall|j: int| 0 <= j < i ==> (#[trigger] s[j]).score >= e.score,
        i < s.len() ==> s[i].score < e.score,
    ensures
        insert_ranked(s, e) == s.insert(i, e),
    decreases i,
{
    if s.len() == 0 {
        assert(seq![e] =~= s.insert(i, e));
    } else if i == 0 {
        assert(seq![e] + s =~= s.insert(i, e));
    } else {
        assert(s[0].score >= e.score);
        let t = s.drop_first();
        assert forall|j: int| 0 <= j < i - 1 implies (#[trigger] t[j]).score >= e.score by {
            assert(t[j] == s[j + 1]);
        }
        lemma_insert_at(t, e, i - 1);
        assert(seq![s[0]] + t.insert(i - 1, e) =~= s.insert(i, e));
    }
}

/// Orders entries by score, highest first, keeping the order of equal scores.
pub fn rank(entries: Vec<MatchResult>) -> (r: Vec<MatchResult>)
    ensures
        results_view(r@) == ranked(results_view(entries@)),
{
    let ghost all = results_view(entries@);
    let ghost n = entries@.len();
    let mut rest = entries;
    let mut out: Vec<MatchResult> = Vec::new();
    assert(all.take(0) =~= Seq::<MatchView>::empty());
    assert(results_view(out@) =~= Seq::<MatchView>::empty());
    assert(results_view(rest@) =~= all.skip(0));
    while rest.len() > 0
        invariant
            rest@.len() <= n,
            all.len() == n,
            results_view(out@) == ranked(all.take(n - rest@.len())),
            results_view(rest@) == all.skip(n - rest@.len()),
        decreases rest@.len(),
    {
        let ghost k = n - rest@.len();
        let ghost prev = rest@;
        let e = rest.remove(0);
        assert(results_view(prev)[0] == e@);
        let mut i: usize = 0;
        while i < out.len() && out[i].score >= e.score
            invariant
                i <= out@.len(),
                forall|j: int| 0 <= j < i ==> (#[trigger] out@[j]).score >= e.score,
            decreases out@.len() - i,
        {
            i += 1;
        }
        proof {
            let ov = results_view(out@);
            assert forall|j: int| 0 <= j < i implies (#[trigger] ov[j]).score >= e@.score by {
                assert(ov[j] == out@[j]@);
            }
            lemma_insert_at(ov, e@, i as int);
            assert(all.take(k + 1).drop_last() =~= all.take(k));
            assert(all[k] == e@) by {
                assert(all.skip(k)[0] == all[k]);
                assert(results_view(prev)[0] == prev[0]@);
            }
        }
        let ghost before = out@;
        out.insert(i, e);
        proof {
            assert(results_view(out@) =~= results_view(before).insert(i as int, e@));
            assert(results_view(rest@) =~= all.skip(n - rest@.len())) by {
                assert forall|j: int| 0 <= j < rest@.len() implies results_view(rest@)[j] == all.skip(
                    n - rest@.len(),
                )[j] by {
                    assert(results_view(rest@)[j] == rest@[j]@);
                    assert(rest@[j] == prev[j + 1]);
                    assert(results_view(prev)[j + 1] == prev[j + 1]@);
                    assert(all.skip(k)[j + 1] == all.skip(k + 1)[j]);
                }
            }
        }
    }
    assert(all.take(n as int) =~= all);
    out
}

proof fn lemma_insert_ranked_from(s: Seq<MatchView>, e: MatchView)
    ensures
        insert_ranked(s, e).len() == s.len() + 1,
        forall|i: int|
            0 <= i < insert_ranked(s, e).len() ==> #[trigger] insert_ranked(s, e)[i] == e
                || s.contains(insert_ranked(s, e)[i]),
    decreases s.len(),
{
    if s.len() == 0 {
    } else if s[0].score < e.score {
        let r = insert_ranked(s, e);
        assert forall|i: int| 0 <= i < r.len() implies #[trigger] r[i] == e || s.contains(r[i]) by {
            if i > 0 {
                assert(r[i] == s[i - 1]);
            }
        }
    } else {
        let t = s.drop_first();
        lemma_insert_ranked_from(t, e);
        let r = insert_ranked(s, e);
        assert forall|i: int| 0 <= i < r.len() implies #[trigger] r[i] == e || s.contains(r[i]) by {
            if i == 0 {
                assert(r[0] == s[0]);
            } else {
                assert(r[i] == insert_ranked(t, e)[i - 1]);
                if t.contains(r[i]) {
                    let j = choose|j: int| 0 <= j < t.len() && t[j] == r[i];
                    assert(s[j + 1] == r[i]);
                }
            }
        }
    }
}

proof fn lemma_ranked_from(s: Seq<MatchView>)
    ensures
        forall|i: int| 0 <= i < ranked(s).len() ==> s.contains(#[trigger] ranked(s)[i]),
    decreases s.len(),
{
    if s.len() > 0 {
        let p = s.drop_last();
        lemma_ranked_from(p);
        lemma_insert_ranked_from(ranked(p), s.last());
        assert forall|i: int| 0 <= i < ranked(s).len() implies s.contains(#[trigger] ranked(s)[i]) by {
            let x = ranked(s)[i];
            if x == s.last() {
                assert(s[s.len() - 1] == x);
            } else {
                let j = choose|j: int| 0 <= j < ranked(p).len() && ranked(p)[j] == x;
                let k = choose|k: int| 0 <= k < p.len() && p[k] == ranked(p)[j];
                assert(s[k] == x);
            }
        }
    }
}

/// What holds of every entry that a search lists for `q`.
pub open spec fn sound_entry(items: Seq<(Seq<char>, Seq<char>)>, q: Seq<char>, m: MatchView) -> bool {
    &&& items.contains((m.key, m.value))
    &&& m.display == display_of(m.key, m.value)
    &&& is_embedding(q, m.key, m.positions)
}

proof fn lemma_matched_sound(items: Seq<(Seq<char>, Seq<char>)>, q: Seq<char>)
    ensures
        forall|i: int| 0 <= i < matched(items, q).len() ==> sound_entry(items, q, #[trigger] matched(items, q)[i]),
    decreases items.len(),
{
    if items.len() > 0 {
        let p = items.drop_last();
        lemma_matched_sound(p, q);
        let r = matched(items, q);
        assert forall|i: int| 0 <= i < r.len() implies sound_entry(items, q, #[trigger] r[i]) by {
            if i < matched(p, q).len() {
                assert(r[i] == matched(p, q)[i]);
                let m = r[i];
                let k = choose|k: int| 0 <= k < p.len() && p[k] == (m.key, m.value);
                assert(items[k] == (m.key, m.value));
            } else {
                assert(items[items.len() - 1] == items.last());
            }
        }
    }
}

proof fn lemma_embedding_extends(q: Seq<char>, s: Seq<char>, t: Seq<char>, pos: Seq<usize>)
    requires
        is_embedding(q, s, pos),
    ensures
        is_embedding(q, s + t, pos),
{
    assert forall|i: int| 0 <= i < pos.len() implies same_folded(q[i], (s + t)[#[trigger] pos[i] as int]) by {
        assert((s + t)[pos[i] as int] == s[pos[i] as int]);
    }
}

proof fn lemma_search_entries(items: Seq<(Seq<char>, Seq<char>)>, q: Seq<char>)
    ensures
        forall|i: int| 0 <= i < search_spec(items, q).len() ==> sound_entry(items, q, #[trigger] search_spec(items, q)[i]),
{
    if q.len() == 0 {
        let r = search_spec(items, q);
        assert forall|i: int| 0 <= i < r.len() implies sound_entry(items, q, #[trigger] r[i]) by {
            assert(r[i] == plain_entry(items[i]));
            assert(items[i] == (r[i].key, r[i].value));
        }
    } else {
        lemma_matched_sound(items, q);
        lemma_ranked_from(matched(items, q));
        let r = search_spec(items, q);
        assert forall|i: int| 0 <= i < r.len() implies sound_entry(items, q, #[trigger] r[i]) by {
            let j = choose|j: int| 0 <= j < matched(items, q).len() && matched(items, q)[j] == r[i];
            assert(sound_entry(items, q, matched(items, q)[j]));
        }
    }
}

/// Every entry that a search lists stands for one of the items, and the query
/// is a subsequence, up to ASCII case, of both its key and its shown text; an
/// item without that property is never listed.
pub proof fn lemma_search_matches_subsequence(items: Seq<(Seq<char>, Seq<char>)>, q: Seq<char>)
    ensures
        forall|i: int|
            0 <= i < search_spec(items, q).len() ==> {
                let m = #[trigger] search_spec(items, q)[i];
                &&& items.contains((m.key, m.value))
                &&& is_subsequence_ci(q, m.key)
                &&& is_subsequence_ci(q, m.display)
            },
{
    lemma_search_entries(items, q);
    assert forall|i: int| 0 <= i < search_spec(items, q).len() implies {
        let m = #[trigger] search_spec(items, q)[i];
        &&& items.contains((m.key, m.value))
        &&& is_subsequence_ci(q, m.key)
        &&& is_subsequence_ci(q, m.display)
    } by {
        let m = search_spec(items, q)[i];
        assert(sound_entry(items, q, m));
        lemma_embedding_extends(q, m.key, seq![' ', ':', ' '] + m.value, m.positions);
        assert(m.display == m.key + (seq![' ', ':', ' '] + m.value));
    }
}

/// The highlight positions of every listed entry are exactly as many as the
/// query's characters, strictly increasing, and inside its shown text; each
/// marks a character equal, up to ASCII case, to its query character.
pub proof fn lemma_search_highlights(items: Seq<(Seq<char>, Seq<char>)>, q: Seq<char>)
    ensures
        forall|i: int|
            0 <= i < search_spec(items, q).len() ==> {
                let m = #[trigger] search_spec(items, q)[i];
                &&& m.positions.len() == q.len()
                &&& is_embedding(q, m.display, m.positions)
            },
{
    lemma_search_entries(items, q);
    assert forall|i: int| 0 <= i < search_spec(items, q).len() implies {
        let m = #[trigger] search_spec(items, q)[i];
        &&& m.positions.len() == q.len()
        &&& is_embedding(q, m.display, m.positions)
    } by {
        let m = search_spec(items, q)[i];
        assert(sound_entry(items, q, m));
        lemma_embedding_extends(q, m.key, seq![' ', ':', ' '] + m.value, m.positions);
        assert(m.display == m.key + (seq![' ', ':', ' '] + m.value));
    }
}

/// A search is a function of the items and the query: the same inputs list
/// the same entries, with the same scores, in the same order.
pub proof fn lemma_search_deterministic(
    items1: Seq<(Seq<char>, Seq<char>)>,
    q1: Seq<char>,
    items2: Seq<(Seq<char>, Seq<char>)>,
    q2: Seq<char>,
)
    requires
        items1 == items2,
        q1 == q2,
    ensures
        search_spec(items1, q1) == search_spec(items2, q2),
{
}

/// Scores never rise along the sequence.
pub open spec fn sorted_by_score(s: Seq<MatchView>) -> bool {
    forall|i: int, j: int| 0 <= i < j < s.len() ==> s[i].score >= s[j].score
}

/// Holds of an entry whose score is `x`.
pub open spec fn score_is(x: int) -> spec_fn(MatchView) -> bool {
    |m: MatchView| m.score == x
}

proof fn lemma_filter_single(e: MatchView, x: int)
    ensures
        seq![e].filter(score_is(x)) == (if e.score == x {
            seq![e]
        } else {
            Seq::<MatchView>::empty()
        }),
{
    reveal(Seq::filter);
    assert(seq![e].drop_last() =~= Seq::<MatchView>::empty());
    assert(Seq::<MatchView>::empty().filter(score_is(x)) =~= Seq::<MatchView>::empty());
    assert(Seq::<MatchView>::empty().push(e) =~= seq![e]);
}

proof fn lemma_insert_ranked_sorted(t: Seq<MatchView>, e: MatchView)
    requires
        sorted_by_score(t),
    ensures
        sorted_by_score(insert_ranked(t, e)),
    decreases t.len(),
{
    lemma_insert_ranked_from(t, e);
    if t.len() > 0 && t[0].score >= e.score {
        let tail = t.drop_first();
        lemma_insert_ranked_sorted(tail, e);
        lemma_insert_ranked_from(tail, e);
        let r = insert_ranked(t, e);
        let rest = insert_ranked(tail, e);
        assert forall|i: int, j: int| 0 <= i < j < r.len() implies r[i].score >= r[j].score by {
            if i == 0 {
                assert(r[j] == rest[j - 1]);
                if rest[j - 1] != e {
                    let k = choose|k: int| 0 <= k < tail.len() && tail[k] == rest[j - 1];
                    assert(t[k + 1] == tail[k]);
                }
            } else {
                assert(r[i] == rest[i - 1]);
                assert(r[j] == rest[j - 1]);
            }
        }
    } else if t.len() > 0 {
        let r = insert_ranked(t, e);
        assert forall|i: int, j: int| 0 <= i < j < r.len() implies r[i].score >= r[j].score by {
            assert(r[j] == t[j - 1]);
            if i > 0 {
                assert(r[i] == t[i - 1]);
            } else {
                assert(t[0].score >= t[j - 1].score || j - 1 == 0);
            }
        }
    }
}

proof fn lemma_insert_ranked_filter(t: Seq<MatchView>, e: MatchView, x: int)
    requires
        sorted_by_score(t),
    ensures
        insert_ranked(t, e).filter(score_is(x)) == t.push(e).filter(score_is(x)),
    decreases t.len(),
{
    let p = score_is(x);
    assert(t.push(e) =~= t + seq![e]);
    Seq::filter_distributes_over_add(t, seq![e], p);
    lemma_filter_single(e, x);
    if t.len() == 0 {
        assert(insert_ranked(t, e) =~= t.push(e));
    } else if t[0].score < e.score {
        Seq::filter_distributes_over_add(seq![e], t, p);
        if e.score == x {
            assert(t.all(|y: MatchView| !p(y))) by {
                assert forall|i: int| 0 <= i < t.len() implies !p(#[trigger] t[i]) by {
                    assert(t[0].score >= t[i].score || i == 0);
                }
            }
            t.lemma_all_neg_filter_empty(p);
            assert(t.filter(p) =~= Seq::<MatchView>::empty());
            assert(seq![e] + t.filter(p) =~= t.filter(p) + seq![e]);
        } else {
            assert(Seq::<MatchView>::empty() + t.filter(p) =~= t.filter(p) + Seq::<MatchView>::empty());
        }
    } else {
        let tail = t.drop_first();
        assert(sorted_by_score(tail)) by {
            assert forall|i: int, j: int| 0 <= i < j < tail.len() implies tail[i].score >= tail[j].score by {
                assert(tail[i] == t[i + 1] && tail[j] == t[j + 1]);
            }
        }
        lemma_insert_ranked_filter(tail, e, x);
        assert(t =~= seq![t[0]] + tail);
        Seq::filter_distributes_over_add(seq![t[0]], insert_ranked(tail, e), p);
        Seq::filter_distributes_over_add(seq![t[0]], tail, p);
        assert(tail.push(e) =~= tail + seq![e]);
        Seq::filter_distributes_over_add(tail, seq![e], p);
        assert(seq![t[0]].filter(p) + (tail.filter(p) + seq![e].filter(p)) =~= (seq![t[0]].filter(p)
            + tail.filter(p)) + seq![e].filter(p));
    }
}

/// Ranking lists entries by score, highest first, and entries of equal
/// score keep the order that they had: for every score, the entries with that
/// score come out exactly as they went in.
pub proof fn lemma_rank_order(s: Seq<MatchView>, x: int)
    ensures
        sorted_by_score(ranked(s)),
        ranked(s).filter(score_is(x)) == s.filter(score_is(x)),
    decreases s.len(),
{
    if s.len() == 0 {
        assert(ranked(s) =~= s);
    } else {
        let p = s.drop_last();
        lemma_rank_order(p, x);
        lemma_insert_ranked_sorted(ranked(p), s.last());
        lemma_insert_ranked_filter(ranked(p), s.last(), x);
        let q = score_is(x);
        assert(ranked(p).push(s.last()) =~= ranked(p) + seq![s.last()]);
        assert(p.push(s.last()) =~= p + seq![s.last()]);
        assert(s =~= p.push(s.last()));
        Seq::filter_distributes_over_add(ranked(p), seq![s.last()], q);
        Seq::filter_distributes_over_add(p, seq![s.last()], q);
    }
}

} // verus!
