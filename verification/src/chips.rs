//! The chip selector: which options to suggest for a typed text, and in
//! which order.
//!
//! An option matches a typed text when the characters of the text occur in
//! the option in the same order, letter case aside. Its score is the number
//! of characters of the option that are read until the last character of the
//! text is found; a lower score is a better match.

use crate::text::chars_of;
use vstd::prelude::*;

verus! {

/// The lower-case form of a text.
pub uninterp spec fn lowercase(text: Seq<char>) -> Seq<char>;

/// The lower-case form of a text.
///
/// Trusted: `str::to_lowercase` of the standard library, whose result
/// depends on the text alone; what it is in terms of the characters is not
/// stated here.
#[verifier::external_body]
fn to_lowercase(text: &str) -> (r: String)
    ensures
        r@ == lowercase(text@),
{
    text.to_lowercase()
}

/// How far a walk along an option has come.
pub struct Walk {
    /// The number of characters of the typed text found so far.
    pub found: nat,
    /// The number of characters of the option read since the last find.
    pub since: nat,
    /// The sum of the distances between the finds.
    pub score: nat,
}

/// The walk along `option` in search of the characters of `typed`, one after
/// the other: each character of the option counts one step, and a character
/// that is the next one sought adds the steps since the last find to the
/// score.
pub open spec fn walk(option: Seq<char>, typed: Seq<char>) -> Walk
    decreases option.len(),
{
    if option.len() == 0 {
        Walk { found: 0, since: 0, score: 0 }
    } else {
        let before = walk(option.drop_last(), typed);
        if before.found < typed.len() && option.last() == typed[before.found as int] {
            Walk { found: before.found + 1, since: 0, score: before.score + before.since + 1 }
        } else {
            Walk { found: before.found, since: before.since + 1, score: before.score }
        }
    }
}

/// The score of `option` for `typed`, both taken as they are: 0 where they
/// are equal, else the score of the walk where it found every character of
/// `typed`. An empty `typed` leaves nothing to find and scores 0.
pub open spec fn match_score_of(option: Seq<char>, typed: Seq<char>) -> Option<nat> {
    if option == typed {
        Some(0nat)
    } else {
        let end = walk(option, typed);
        if end.found == typed.len() {
            Some(end.score)
        } else {
            None
        }
    }
}

/// The score of `option` for `typed`, letter case aside.
pub open spec fn option_score(option: Seq<char>, typed: Seq<char>) -> Option<nat> {
    match_score_of(lowercase(option), lowercase(typed))
}

/// Whether `at` places the characters of `p` in `s`, in order.
pub open spec fn embeds(p: Seq<char>, s: Seq<char>, at: Seq<int>) -> bool {
    &&& at.len() == p.len()
    &&& forall|i: int| 0 <= i < p.len() ==> 0 <= #[trigger] at[i] < s.len() && s[at[i]] == p[i]
    &&& forall|i: int, j: int| 0 <= i < j < p.len() ==> at[i] < at[j]
}

/// Whether every character of `p` occurs in `s` in the same order.
pub open spec fn is_subsequence(p: Seq<char>, s: Seq<char>) -> bool {
    exists|at: Seq<int>| embeds(p, s, at)
}

/// A walk never finds more than was typed, and its counters never exceed
/// the number of characters read.
pub proof fn lemma_walk_bounds(option: Seq<char>, typed: Seq<char>)
    ensures
        walk(option, typed).found <= typed.len(),
        walk(option, typed).found <= option.len(),
        walk(option, typed).score + walk(option, typed).since <= option.len(),
        walk(option, typed).found == 0 ==> walk(option, typed).score == 0,
    decreases option.len(),
{
    if option.len() > 0 {
        lemma_walk_bounds(option.drop_last(), typed);
    }
}

/// What a walk has found occurs in the option in order.
pub proof fn lemma_walk_finds_subsequence(option: Seq<char>, typed: Seq<char>)
    ensures
        is_subsequence(typed.take(walk(option, typed).found as int), option),
    decreases option.len(),
{
    lemma_walk_bounds(option, typed);
    if option.len() == 0 {
        assert(embeds(typed.take(0), option, Seq::<int>::empty()));
    } else {
        let head = option.drop_last();
        let before = walk(head, typed);
        lemma_walk_bounds(head, typed);
        lemma_walk_finds_subsequence(head, typed);
        let at = choose|at: Seq<int>| embeds(typed.take(before.found as int), head, at);
        if before.found < typed.len() && option.last() == typed[before.found as int] {
            let longer = at.push(option.len() - 1);
            assert(embeds(typed.take(before.found as int + 1), option, longer));
        } else {
            assert(embeds(typed.take(before.found as int), option, at));
        }
    }
}

/// A walk finds every prefix of the typed text that occurs in the option in
/// order.
pub proof fn lemma_walk_finds_all(option: Seq<char>, typed: Seq<char>, k: int)
    requires
        0 <= k <= typed.len(),
        is_subsequence(typed.take(k), option),
    ensures
        walk(option, typed).found >= k,
    decreases option.len(),
{
    if k > 0 {
        let p = typed.take(k);
        let at = choose|at: Seq<int>| embeds(p, option, at);
        assert(0 <= at[k - 1] < option.len());
        let head = option.drop_last();
        let before = walk(head, typed);
        if at[k - 1] < option.len() - 1 {
            assert(embeds(p, head, at));
            lemma_walk_finds_all(head, typed, k);
        } else {
            let shorter = at.drop_last();
            assert(typed.take(k - 1) =~= p.drop_last());
            assert(embeds(typed.take(k - 1), head, shorter)) by {
                assert forall|i: int| 0 <= i < k - 1 implies 0 <= #[trigger] shorter[i]
                    < head.len() && head[shorter[i]] == typed.take(k - 1)[i] by {
                    assert(at[i] < at[k - 1]);
                    assert(option[at[i]] == p[i]);
                }
            }
            lemma_walk_finds_all(head, typed, k - 1);
            assert(option.last() == p[k - 1]);
        }
    }
}

/// Where a walk has found something, its score is the number of characters
/// read up to the last find: the walk along that many characters finds as
/// much, and the walk along one less finds one less.
pub proof fn lemma_walk_score(option: Seq<char>, typed: Seq<char>)
    ensures
        walk(option, typed).score + walk(option, typed).since == option.len(),
        walk(option, typed).found > 0 ==> {
            &&& walk(option.take(walk(option, typed).score as int), typed).found == walk(
                option,
                typed,
            ).found
            &&& walk(option.take(walk(option, typed).score - 1), typed).found + 1 == walk(
                option,
                typed,
            ).found
        },
    decreases option.len(),
{
    if option.len() > 0 {
        let head = option.drop_last();
        let before = walk(head, typed);
        lemma_walk_score(head, typed);
        if before.found < typed.len() && option.last() == typed[before.found as int] {
            assert(option.take(option.len() as int) =~= option);
            assert(option.take(option.len() - 1) =~= head);
        } else if before.found > 0 {
            assert(option.take(before.score as int) =~= head.take(before.score as int));
            assert(option.take(before.score - 1) =~= head.take(before.score - 1));
        }
    }
}

/// What occurs in order in the first characters of a text occurs in order
/// in the text.
pub proof fn lemma_subsequence_of_prefix(p: Seq<char>, s: Seq<char>, n: int, m: int)
    requires
        0 <= n <= m <= s.len(),
        is_subsequence(p, s.take(n)),
    ensures
        is_subsequence(p, s.take(m)),
{
    let at = choose|at: Seq<int>| embeds(p, s.take(n), at);
    assert(embeds(p, s.take(m), at)) by {
        assert forall|i: int| 0 <= i < p.len() implies 0 <= #[trigger] at[i] < s.take(m).len()
            && s.take(m)[at[i]] == p[i] by {
            assert(s.take(n)[at[i]] == p[i]);
        }
    }
}

/// The score of an option for a typed text other than the option itself is
/// the length of the shortest beginning of the option in which the text
/// occurs in order.
pub proof fn lemma_score_is_shortest_beginning(option: Seq<char>, typed: Seq<char>, score: nat)
    requires
        option != typed,
        match_score_of(option, typed) == Some(score),
    ensures
        score <= option.len(),
        typed.len() > 0 ==> score >= 1,
        is_subsequence(typed, option.take(score as int)),
        forall|n: int| 0 <= n < score ==> !is_subsequence(typed, #[trigger] option.take(n)),
{
    lemma_walk_bounds(option, typed);
    if typed.len() == 0 {
        assert(embeds(typed, option.take(0), Seq::<int>::empty()));
    } else {
        lemma_walk_score(option, typed);
        let short = option.take(score as int);
        lemma_walk_finds_subsequence(short, typed);
        assert(typed.take(typed.len() as int) =~= typed);
        assert forall|n: int| 0 <= n < score implies !is_subsequence(
            typed,
            #[trigger] option.take(n),
        ) by {
            if is_subsequence(typed, option.take(n)) {
                lemma_subsequence_of_prefix(typed, option, n, score - 1);
                lemma_walk_finds_all(option.take(score - 1), typed, typed.len() as int);
            }
        }
    }
}

/// A text scores 0 for itself.
pub proof fn lemma_score_of_itself(option: Seq<char>)
    ensures
        option_score(option, option) == Some(0nat),
{
}

/// An option has a score only where the typed text occurs in it in order,
/// letter case aside.
pub proof fn lemma_score_only_for_subsequence(option: Seq<char>, typed: Seq<char>)
    requires
        !is_subsequence(lowercase(typed), lowercase(option)),
    ensures
        option_score(option, typed) is None,
{
    let o = lowercase(option);
    let t = lowercase(typed);
    if o == t {
        let at = Seq::new(t.len(), |i: int| i);
        assert(embeds(t, o, at));
    } else {
        lemma_walk_finds_subsequence(o, t);
        if walk(o, t).found == t.len() {
            assert(t.take(t.len() as int) =~= t);
        }
    }
}

/// An option has a score wherever the typed text occurs in it in order,
/// letter case aside.
pub proof fn lemma_score_for_subsequence(option: Seq<char>, typed: Seq<char>)
    requires
        is_subsequence(lowercase(typed), lowercase(option)),
    ensures
        option_score(option, typed) is Some,
{
    let o = lowercase(option);
    let t = lowercase(typed);
    assert(t.take(t.len() as int) =~= t);
    lemma_walk_finds_all(o, t, t.len() as int);
    lemma_walk_bounds(o, t);
}

fn same_chars(a: &Vec<char>, b: &Vec<char>) -> (r: bool)
    ensures
        r == (a@ == b@),
{
    if a.len() != b.len() {
        return false;
    }
    let mut i: usize = 0;
    while i < a.len()
        invariant
            i <= a.len(),
            a.len() == b.len(),
            a@.take(i as int) == b@.take(i as int),
        decreases a.len() - i,
    {
        if a[i] != b[i] {
            return false;
        }
        i += 1;
        proof {
            assert(a@.take(i as int) =~= a@.take(i - 1).push(a@[i - 1]));
            assert(b@.take(i as int) =~= b@.take(i - 1).push(b@[i - 1]));
        }
    }
    proof {
        assert(a@.take(a.len() as int) =~= a@);
        assert(b@.take(b.len() as int) =~= b@);
    }
    true
}

/// The score of `option` for `typed`, both taken as they are.
pub fn match_score(option: &str, typed: &str) -> (r: Option<usize>)
    ensures
        r is Some == match_score_of(option@, typed@) is Some,
        r is Some ==> r->0 == match_score_of(option@, typed@)->0,
{
    let option_chars = chars_of(option);
    let typed_chars = chars_of(typed);
    if same_chars(&option_chars, &typed_chars) {
        return Some(0);
    }
    let mut score: usize = 0;
    let mut indices_since_last_match: usize = 0;
    let mut found: usize = 0;
    let mut i: usize = 0;
    while i < option_chars.len()
        invariant
            i <= option_chars.len(),
            found == walk(option_chars@.take(i as int), typed_chars@).found,
            indices_since_last_match == walk(option_chars@.take(i as int), typed_chars@).since,
            score == walk(option_chars@.take(i as int), typed_chars@).score,
            found <= typed_chars.len(),
            score + indices_since_last_match <= i,
        decreases option_chars.len() - i,
    {
        proof {
            assert(option_chars@.take(i + 1).drop_last() =~= option_chars@.take(i as int));
            lemma_walk_bounds(option_chars@.take(i + 1), typed_chars@);
        }
        indices_since_last_match += 1;
        if found < typed_chars.len() && option_chars[i] == typed_chars[found] {
            score += indices_since_last_match;
            indices_since_last_match = 0;
            found += 1;
        }
        i += 1;
    }
    proof {
        assert(option_chars@.take(i as int) =~= option_chars@);
    }
    if found == typed_chars.len() {
        Some(score)
    } else {
        None
    }
}

/// Compares an option with a typed text, letter case aside: the score of the
/// match, or `None` where the option does not match.
pub fn option_match(option: &str, value: &str) -> (r: Option<usize>)
    ensures
        r is Some == option_score(option@, value@) is Some,
        r is Some ==> r->0 == option_score(option@, value@)->0,
{
    let option = to_lowercase(option);
    let value = to_lowercase(value);
    match_score(option.as_str(), value.as_str())
}

/// The texts of a list of options.
pub open spec fn texts(options: Seq<String>) -> Seq<Seq<char>> {
    Seq::new(options.len(), |i: int| options[i]@)
}

/// The options of `all` that are not among `selected`, in their order.
pub open spec fn unselected(all: Seq<Seq<char>>, selected: Seq<Seq<char>>) -> Seq<Seq<char>>
    decreases all.len(),
{
    if all.len() == 0 {
        Seq::empty()
    } else if selected.contains(all.last()) {
        unselected(all.drop_last(), selected)
    } else {
        unselected(all.drop_last(), selected).push(all.last())
    }
}

/// The options that have a score for `typed`, in their order.
pub open spec fn matching(options: Seq<Seq<char>>, typed: Seq<char>) -> Seq<Seq<char>>
    decreases options.len(),
{
    if options.len() == 0 {
        Seq::empty()
    } else if option_score(options.last(), typed) is Some {
        matching(options.drop_last(), typed).push(options.last())
    } else {
        matching(options.drop_last(), typed)
    }
}

/// The number by which an option is ranked: its score.
pub open spec fn rank_key(option: Seq<char>, typed: Seq<char>) -> nat {
    match option_score(option, typed) {
        Some(score) => score,
        None => 0,
    }
}

/// Where an option with key `key` goes into a ranked list: behind every
/// option whose key is no greater.
pub open spec fn insert_position(ranked: Seq<Seq<char>>, key: nat, typed: Seq<char>) -> int
    decreases ranked.len(),
{
    if ranked.len() == 0 || rank_key(ranked.last(), typed) <= key {
        ranked.len() as int
    } else {
        insert_position(ranked.drop_last(), key, typed)
    }
}

/// The options in ascending order of their keys; options with the same key
/// keep their order.
pub open spec fn ranked(options: Seq<Seq<char>>, typed: Seq<char>) -> Seq<Seq<char>>
    decreases options.len(),
{
    if options.len() == 0 {
        Seq::empty()
    } else {
        let head = ranked(options.drop_last(), typed);
        head.insert(insert_position(head, rank_key(options.last(), typed), typed), options.last())
    }
}

/// The first `limit` of a list; all of it where it holds no more.
pub open spec fn limited<T>(items: Seq<T>, limit: nat) -> Seq<T> {
    if items.len() > limit {
        items.take(limit as int)
    } else {
        items
    }
}

/// The options to suggest: those not selected yet; for an empty typed text
/// the first `limit` of them, else the first `limit` of those that match, the
/// best match first.
pub open spec fn possible_options(
    all: Seq<Seq<char>>,
    selected: Seq<Seq<char>>,
    typed: Seq<char>,
    limit: nat,
) -> Seq<Seq<char>> {
    let rest = unselected(all, selected);
    if typed.len() == 0 {
        limited(rest, limit)
    } else {
        limited(ranked(matching(rest, typed), typed), limit)
    }
}

/// The options with key `key`, in their order.
pub open spec fn with_key(options: Seq<Seq<char>>, typed: Seq<char>, key: nat) -> Seq<Seq<char>>
    decreases options.len(),
{
    if options.len() == 0 {
        Seq::empty()
    } else if rank_key(options.last(), typed) == key {
        with_key(options.drop_last(), typed, key).push(options.last())
    } else {
        with_key(options.drop_last(), typed, key)
    }
}

/// Whether the keys of a list never fall.
pub open spec fn is_ascending(options: Seq<Seq<char>>, typed: Seq<char>) -> bool {
    forall|i: int, j: int|
        0 <= i < j < options.len() ==> rank_key(options[i], typed) <= rank_key(options[j], typed)
}

/// The place found lies in the list, with greater keys behind it and, in an
/// ascending list, no greater key before it.
pub proof fn lemma_insert_position(ranked: Seq<Seq<char>>, key: nat, typed: Seq<char>)
    ensures
        0 <= insert_position(ranked, key, typed) <= ranked.len(),
        forall|k: int|
            insert_position(ranked, key, typed) <= k < ranked.len() ==> rank_key(ranked[k], typed)
                > key,
        is_ascending(ranked, typed) ==> forall|k: int|
            0 <= k < insert_position(ranked, key, typed) ==> rank_key(ranked[k], typed) <= key,
    decreases ranked.len(),
{
    if !(ranked.len() == 0 || rank_key(ranked.last(), typed) <= key) {
        let head = ranked.drop_last();
        lemma_insert_position(head, key, typed);
        assert forall|k: int| insert_position(ranked, key, typed) <= k < ranked.len() implies rank_key(
            ranked[k],
            typed,
        ) > key by {
            if k < head.len() {
                assert(ranked[k] == head[k]);
            }
        }
        if is_ascending(ranked, typed) {
            assert forall|i: int, j: int| 0 <= i < j < head.len() implies rank_key(head[i], typed)
                <= rank_key(head[j], typed) by {
                assert(head[i] == ranked[i] && head[j] == ranked[j]);
            }
            assert forall|k: int| 0 <= k < insert_position(ranked, key, typed) implies rank_key(
                ranked[k],
                typed,
            ) <= key by {
                assert(ranked[k] == head[k]);
            }
        }
    } else if is_ascending(ranked, typed) && ranked.len() > 0 {
        assert forall|k: int| 0 <= k < ranked.len() implies rank_key(ranked[k], typed) <= key by {
            if k < ranked.len() - 1 {
                assert(rank_key(ranked[k], typed) <= rank_key(ranked[ranked.len() - 1], typed));
            }
        }
    }
}

/// A ranked list is in ascending order of its keys.
pub proof fn lemma_ranked_ascending(options: Seq<Seq<char>>, typed: Seq<char>)
    ensures
        is_ascending(ranked(options, typed), typed),
        ranked(options, typed).len() == options.len(),
    decreases options.len(),
{
    if options.len() > 0 {
        let head = ranked(options.drop_last(), typed);
        let key = rank_key(options.last(), typed);
        let at = insert_position(head, key, typed);
        lemma_ranked_ascending(options.drop_last(), typed);
        lemma_insert_position(head, key, typed);
        let out = head.insert(at, options.last());
        assert forall|i: int, j: int| 0 <= i < j < out.len() implies rank_key(out[i], typed)
            <= rank_key(out[j], typed) by {
            if j < at {
                assert(out[i] == head[i] && out[j] == head[j]);
            } else if j == at {
                assert(out[i] == head[i]);
            } else if i < at {
                assert(out[i] == head[i] && out[j] == head[j - 1]);
            } else if i == at {
                assert(out[j] == head[j - 1]);
            } else {
                assert(out[i] == head[i - 1] && out[j] == head[j - 1]);
            }
        }
    }
}

/// The options with one key, taken from two lists joined, are those of the
/// first list followed by those of the second.
pub proof fn lemma_with_key_joined(
    a: Seq<Seq<char>>,
    b: Seq<Seq<char>>,
    typed: Seq<char>,
    key: nat,
)
    ensures
        with_key(a + b, typed, key) == with_key(a, typed, key) + with_key(b, typed, key),
    decreases b.len(),
{
    if b.len() == 0 {
        assert(a + b =~= a);
        assert(with_key(a, typed, key) + with_key(b, typed, key) =~= with_key(a, typed, key));
    } else {
        lemma_with_key_joined(a, b.drop_last(), typed, key);
        assert((a + b).drop_last() =~= a + b.drop_last());
        assert((a + b).last() == b.last());
        if rank_key(b.last(), typed) == key {
            assert(with_key(a, typed, key) + with_key(b.drop_last(), typed, key).push(b.last())
                =~= (with_key(a, typed, key) + with_key(b.drop_last(), typed, key)).push(b.last()));
        }
    }
}

/// A list whose keys are all greater than `key` holds no option with that
/// key.
pub proof fn lemma_with_key_absent(options: Seq<Seq<char>>, typed: Seq<char>, key: nat)
    requires
        forall|k: int| 0 <= k < options.len() ==> rank_key(options[k], typed) != key,
    ensures
        with_key(options, typed, key).len() == 0,
    decreases options.len(),
{
    if options.len() > 0 {
        assert forall|k: int| 0 <= k < options.drop_last().len() implies rank_key(
            options.drop_last()[k],
            typed,
        ) != key by {
            assert(options.drop_last()[k] == options[k]);
        }
        lemma_with_key_absent(options.drop_last(), typed, key);
        assert(rank_key(options[options.len() - 1], typed) != key);
    }
}

/// Ranking neither adds nor drops an option, and keeps the options with the
/// same key in the order in which they came.
pub proof fn lemma_ranked_keeps_order(options: Seq<Seq<char>>, typed: Seq<char>, key: nat)
    ensures
        with_key(ranked(options, typed), typed, key) == with_key(options, typed, key),
    decreases options.len(),
{
    if options.len() > 0 {
        let head = ranked(options.drop_last(), typed);
        let last = options.last();
        let last_key = rank_key(last, typed);
        let at = insert_position(head, last_key, typed);
        lemma_ranked_keeps_order(options.drop_last(), typed, key);
        lemma_insert_position(head, last_key, typed);
        let front = head.take(at);
        let back = head.skip(at);
        let out = head.insert(at, last);
        assert(out =~= (front + seq![last]) + back);
        assert(head =~= front + back);
        lemma_with_key_joined(front + seq![last], back, typed, key);
        lemma_with_key_joined(front, seq![last], typed, key);
        lemma_with_key_joined(front, back, typed, key);
        assert(seq![last].drop_last() =~= Seq::<Seq<char>>::empty());
        assert(with_key(seq![last].drop_last(), typed, key) =~= Seq::<Seq<char>>::empty());
        if last_key == key {
            assert forall|k: int| 0 <= k < back.len() implies rank_key(back[k], typed) != key by {
                assert(back[k] == head[at + k]);
            }
            lemma_with_key_absent(back, typed, key);
            assert(with_key(seq![last], typed, key) =~= seq![last]);
            assert(with_key(out, typed, key) =~= with_key(front, typed, key).push(last));
            assert(with_key(head, typed, key) =~= with_key(front, typed, key));
        } else {
            assert(with_key(seq![last], typed, key) =~= Seq::<Seq<char>>::empty());
            assert(with_key(out, typed, key) =~= with_key(head, typed, key));
        }
    }
}

/// The first `limit` of the options; all of them where there are no more.
pub fn limit_options<T: Clone>(options: &[T], limit: usize) -> (r: Vec<T>)
    ensures
        r.len() == limited(options@, limit as nat).len(),
        forall|i: int| 0 <= i < r.len() ==> cloned(options@[i], #[trigger] r@[i]),
{
    let limit_index = if options.len() > limit {
        limit
    } else {
        options.len()
    };
    let mut r: Vec<T> = Vec::new();
    let mut i: usize = 0;
    while i < limit_index
        invariant
            i <= limit_index <= options.len(),
            r.len() == i,
            forall|k: int| 0 <= k < i ==> cloned(options@[k], #[trigger] r@[k]),
        decreases limit_index - i,
    {
        r.push(options[i].clone());
        i += 1;
    }
    r
}

fn is_selected(selected_options: &[String], option: &String) -> (r: bool)
    ensures
        r == texts(selected_options@).contains(option@),
{
    let mut j: usize = 0;
    while j < selected_options.len()
        invariant
            j <= selected_options.len(),
            forall|k: int| 0 <= k < j ==> texts(selected_options@)[k] != option@,
        decreases selected_options.len() - j,
    {
        if selected_options[j] == *option {
            assert(texts(selected_options@)[j as int] == option@);
            return true;
        }
        j += 1;
    }
    false
}

fn unselected_options(all_options: &[String], selected_options: &[String]) -> (r: Vec<String>)
    ensures
        texts(r@) == unselected(texts(all_options@), texts(selected_options@)),
{
    let mut r: Vec<String> = Vec::new();
    let mut i: usize = 0;
    while i < all_options.len()
        invariant
            i <= all_options.len(),
            texts(r@) == unselected(texts(all_options@).take(i as int), texts(selected_options@)),
        decreases all_options.len() - i,
    {
        proof {
            let next = texts(all_options@).take(i + 1);
            assert(next.drop_last() =~= texts(all_options@).take(i as int));
            assert(next.last() == all_options@[i as int]@);
        }
        let ghost before = texts(r@);
        if !is_selected(selected_options, &all_options[i]) {
            r.push(all_options[i].clone());
            proof {
                assert(texts(r@) =~= before.push(all_options@[i as int]@));
            }
        }
        i += 1;
    }
    proof {
        assert(texts(all_options@).take(i as int) =~= texts(all_options@));
    }
    r
}

fn ranked_matches(options: &Vec<String>, next_option: &str) -> (r: Vec<String>)
    ensures
        texts(r@) == ranked(matching(texts(options@), next_option@), next_option@),
{
    let mut r: Vec<String> = Vec::new();
    let mut scores: Vec<usize> = Vec::new();
    let mut i: usize = 0;
    while i < options.len()
        invariant
            i <= options.len(),
            scores.len() == r.len(),
            forall|k: int|
                0 <= k < r.len() ==> rank_key(#[trigger] texts(r@)[k], next_option@) == scores@[k],
            texts(r@) == ranked(
                matching(texts(options@).take(i as int), next_option@),
                next_option@,
            ),
        decreases options.len() - i,
    {
        proof {
            let next = texts(options@).take(i + 1);
            assert(next.drop_last() =~= texts(options@).take(i as int));
            assert(next.last() == options@[i as int]@);
        }
        let ghost before = texts(r@);
        match option_match(options[i].as_str(), next_option) {
            Some(score) => {
                let mut at: usize = r.len();
                proof {
                    assert(before.take(r.len() as int) =~= before);
                }
                while at > 0 && scores[at - 1] > score
                    invariant
                        at <= r.len(),
                        scores.len() == r.len(),
                        before == texts(r@),
                        forall|k: int|
                            0 <= k < r.len() ==> rank_key(#[trigger] before[k], next_option@)
                                == scores@[k],
                        insert_position(before, score as nat, next_option@) == insert_position(
                            before.take(at as int),
                            score as nat,
                            next_option@,
                        ),
                    decreases at,
                {
                    proof {
                        assert(before.take(at as int).drop_last() =~= before.take(at - 1));
                        assert(before.take(at as int).last() == before[at - 1]);
                    }
                    at -= 1;
                }
                proof {
                    if at > 0 {
                        assert(before.take(at as int).last() == before[at - 1]);
                    }
                    assert(insert_position(before, score as nat, next_option@) == at);
                    assert(rank_key(options@[i as int]@, next_option@) == score);
                }
                let ghost old_scores = scores@;
                r.insert(at, options[i].clone());
                scores.insert(at, score);
                proof {
                    let after = before.insert(at as int, options@[i as int]@);
                    assert(texts(r@) =~= after);
                    let kept = matching(texts(options@).take(i as int), next_option@);
                    let grown = kept.push(options@[i as int]@);
                    assert(matching(texts(options@).take(i + 1), next_option@) == grown);
                    assert(grown.drop_last() =~= kept);
                    assert(ranked(grown, next_option@) == after);
                    assert forall|k: int| 0 <= k < r.len() implies rank_key(
                        #[trigger] texts(r@)[k],
                        next_option@,
                    ) == scores@[k] by {
                        if k < at {
                            assert(after[k] == before[k]);
                        } else if k > at {
                            assert(after[k] == before[k - 1]);
                            assert(scores@[k] == old_scores[k - 1]);
                        }
                    }
                }
            },
            None => {
                assert(matching(texts(options@).take(i + 1), next_option@) == matching(
                    texts(options@).take(i as int),
                    next_option@,
                ));
            },
        }
        i += 1;
    }
    proof {
        assert(texts(options@).take(i as int) =~= texts(options@));
    }
    r
}

/// The options to suggest, given all options, those selected already, and
/// the text typed so far: see [`possible_options`].
pub fn get_possible_options(
    all_options: &[String],
    selected_options: &[String],
    next_option: &str,
    limit: usize,
) -> (r: Vec<String>)
    ensures
        texts(r@) == possible_options(
            texts(all_options@),
            texts(selected_options@),
            next_option@,
            limit as nat,
        ),
        r.len() <= limit,
{
    let mut candidates = unselected_options(all_options, selected_options);
    if !next_option.is_empty() {
        candidates = ranked_matches(&candidates, next_option);
    }
    let ghost full = texts(candidates@);
    if candidates.len() > limit {
        candidates.truncate(limit);
    }
    proof {
        assert(texts(candidates@) =~= limited(full, limit as nat));
    }
    candidates
}

/// The state of a chip selector: the chips selected, the options on offer,
/// the text typed so far, how many suggestions to show, and whether the
/// dropdown is open.
#[derive(Clone, Debug)]
pub struct ChipSelection {
    /// The chips selected, oldest first.
    pub selected: Vec<String>,
    /// All options on offer.
    pub options: Vec<String>,
    /// The text typed so far.
    pub draft: String,
    /// The greatest number of suggestions to show.
    pub option_limit: usize,
    /// Whether the dropdown is open.
    pub dropdown_open: bool,
}

impl ChipSelection {
    /// The suggestions that the selector shows.
    pub open spec fn suggested(&self) -> Seq<Seq<char>> {
        possible_options(
            texts(self.options@),
            texts(self.selected@),
            self.draft@,
            self.option_limit as nat,
        )
    }

    /// A selector over `options` with the chips `selected`, nothing typed
    /// and the dropdown closed.
    pub fn new(options: Vec<String>, selected: Vec<String>, option_limit: usize) -> (r: Self)
        ensures
            r.options == options,
            r.selected == selected,
            r.draft@.len() == 0,
            r.option_limit == option_limit,
            !r.dropdown_open,
    {
        ChipSelection { selected, options, draft: String::new(), option_limit, dropdown_open: false }
    }

    /// The suggestions to show: see [`possible_options`].
    pub fn suggestions(&self) -> (r: Vec<String>)
        ensures
            texts(r@) == self.suggested(),
    {
        get_possible_options(
            self.options.as_slice(),
            self.selected.as_slice(),
            self.draft.as_str(),
            self.option_limit,
        )
    }

    /// Takes the text of the input after a keystroke.
    pub fn on_input(&mut self, text: &str)
        ensures
            final(self).draft@ == text@,
            final(self).selected == old(self).selected,
            final(self).options == old(self).options,
            final(self).option_limit == old(self).option_limit,
            final(self).dropdown_open == old(self).dropdown_open,
    {
        self.draft = String::from_str(text);
    }

    /// Takes the Enter key: the first suggestion, if there is one, becomes
    /// the last chip and the typed text is cleared. Without a suggestion
    /// nothing changes.
    pub fn on_commit_first_suggestion(&mut self)
        ensures
            final(self).options == old(self).options,
            final(self).option_limit == old(self).option_limit,
            final(self).dropdown_open == old(self).dropdown_open,
            old(self).suggested().len() > 0 ==> texts(final(self).selected@) == texts(
                old(self).selected@,
            ).push(old(self).suggested()[0]) && final(self).draft@.len() == 0,
            old(self).suggested().len() == 0 ==> *final(self) == *old(self),
    {
        let possible_options = self.suggestions();
        if possible_options.len() > 0 {
            let ghost before = texts(self.selected@);
            assert(texts(possible_options@)[0] == possible_options@[0]@);
            self.selected.push(possible_options[0].clone());
            self.draft = String::new();
            proof {
                assert(texts(self.selected@) =~= before.push(old(self).suggested()[0]));
            }
        }
    }

    /// Takes the Backspace key: with nothing typed, the last chip is
    /// removed. With a text typed, or without chips, nothing changes.
    pub fn on_backspace(&mut self)
        ensures
            final(self).options == old(self).options,
            final(self).draft == old(self).draft,
            final(self).option_limit == old(self).option_limit,
            final(self).dropdown_open == old(self).dropdown_open,
            final(self).selected@ == if old(self).draft@.len() == 0 && old(self).selected@.len() > 0 {
                old(self).selected@.drop_last()
            } else {
                old(self).selected@
            },
    {
        if self.draft.as_str().is_empty() && self.selected.len() > 0 {
            self.selected.pop();
        }
    }

    /// Takes a click on a suggestion: it becomes the last chip and the typed
    /// text is cleared.
    pub fn on_suggestion_click(&mut self, option: &str)
        ensures
            final(self).options == old(self).options,
            final(self).option_limit == old(self).option_limit,
            final(self).dropdown_open == old(self).dropdown_open,
            texts(final(self).selected@) == texts(old(self).selected@).push(option@),
            final(self).draft@.len() == 0,
    {
        let ghost before = texts(self.selected@);
        self.selected.push(String::from_str(option));
        self.draft = String::new();
        proof {
            assert(texts(self.selected@) =~= before.push(option@));
        }
    }

    /// Takes a click on the cross of the chip at `index`: that chip is
    /// removed. The typed text stays.
    pub fn on_remove_chip(&mut self, index: usize)
        requires
            index < old(self).selected.len(),
        ensures
            final(self).options == old(self).options,
            final(self).draft == old(self).draft,
            final(self).option_limit == old(self).option_limit,
            final(self).dropdown_open == old(self).dropdown_open,
            final(self).selected@ == old(self).selected@.remove(index as int),
    {
        self.selected.remove(index);
    }

    /// Opens the dropdown.
    pub fn open_dropdown(&mut self)
        ensures
            final(self).dropdown_open,
            final(self).options == old(self).options,
            final(self).selected == old(self).selected,
            final(self).draft == old(self).draft,
            final(self).option_limit == old(self).option_limit,
    {
        self.dropdown_open = true;
    }

    /// Closes the dropdown.
    pub fn close_dropdown(&mut self)
        ensures
            !final(self).dropdown_open,
            final(self).options == old(self).options,
            final(self).selected == old(self).selected,
            final(self).draft == old(self).draft,
            final(self).option_limit == old(self).option_limit,
    {
        self.dropdown_open = false;
    }
}

} // verus!
